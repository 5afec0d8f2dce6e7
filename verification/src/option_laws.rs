//! What holds of reading and rendering options together: rendered options read back as declared,
//! the safety floor is there, and a second rendering changes nothing.
use vstd::prelude::*;
use vstd::seq_lib::*;
use vstd::string::*;

use crate::error::Fault;
use crate::number::{decimal, is_digit, law_read_undoes_print, lemma_decimal, read_u32};
use crate::options::{
    Options, OptionKind, Token, clean, declared_parts, first_fault, flag, flag_part, floored,
    has_key, has_kind, in_bounds, in_order, kind_of, lemma_options_of_push, listed, number_part,
    of_kind, options_of, read_options, render, rendered_parts, resilient, setting, text_part,
    token, token_fault, token_text, tokens, trimmed_pieces, untyped, valid_vers, well_typed,
    with_default, with_token,
};
use crate::text::{
    find, is_space, join, lemma_contains_push, lemma_find_bounds, lemma_find_is, lemma_trim_ends,
    lemma_trim_id, split, trim,
};

verus! {

// ---------------------------------------------------------------------------------------------
// The floor
// ---------------------------------------------------------------------------------------------
/// What the floor adds behind the declared options.
pub open spec fn floor_parts(o: Options) -> Seq<Seq<char>> {
    if o.hard == Some(true) {
        Seq::empty()
    } else {
        flag_part("soft"@, o.soft != Some(true)) + flag_part(
            "softreval"@,
            !has_key(o.extra, "softreval"@),
        ) + flag_part("timeo=50"@, o.timeo is None) + flag_part("retrans=2"@, o.retrans is None)
    }
}

// ---------------------------------------------------------------------------------------------
// Joining and splitting
// ---------------------------------------------------------------------------------------------
/// The pieces of a text at a separator do not hold the separator.
pub proof fn lemma_split_pieces(s: Seq<char>, sep: char)
    ensures
        split(s, sep).len() > 0,
        forall|i: int| 0 <= i < split(s, sep).len() ==> !(#[trigger] split(s, sep)[i]).contains(sep),
    decreases s.len(),
{
    lemma_find_bounds(s, sep);
    let n = find(s, sep);
    if n < s.len() {
        let rest = s.skip(n + 1);
        lemma_split_pieces(rest, sep);
        assert forall|i: int| 0 <= i < split(s, sep).len() implies !(#[trigger] split(
            s,
            sep,
        )[i]).contains(sep) by {
            if i > 0 {
                assert(split(s, sep)[i] == split(rest, sep)[i - 1]);
            }
        }
    }
}

/// A piece in front of a separator splits off.
proof fn lemma_split_front(a: Seq<char>, sep: char, rest: Seq<char>)
    requires
        !a.contains(sep),
    ensures
        split(a + seq![sep] + rest, sep) == seq![a] + split(rest, sep),
{
    let s = a + seq![sep] + rest;
    assert forall|i: int| 0 <= i < a.len() implies #[trigger] s[i] != sep by {
        assert(s[i] == a[i]);
        assert(a.contains(a[i]));
    }
    lemma_find_is(s, sep, a.len() as int);
    assert(s.take(a.len() as int) =~= a);
    assert(s.skip(a.len() as int + 1) =~= rest);
}

/// The parts, with `sep` between neighbours, read from the front.
proof fn lemma_join_front(parts: Seq<Seq<char>>, sep: Seq<char>)
    requires
        parts.len() >= 2,
    ensures
        join(parts, sep) == parts[0] + sep + join(parts.skip(1), sep),
    decreases parts.len(),
{
    let tail = parts.skip(1);
    if parts.len() == 2 {
        assert(parts.drop_last().len() == 1);
        assert(parts.drop_last()[0] == parts[0]);
        assert(join(parts.drop_last(), sep) == parts[0]);
        assert(join(tail, sep) == parts[1]);
    } else {
        lemma_join_front(parts.drop_last(), sep);
        assert(parts.drop_last().skip(1) =~= tail.drop_last());
        assert(join(parts, sep) =~= parts[0] + sep + join(tail, sep));
    }
}

/// Splitting at commas undoes joining with commas.
pub proof fn lemma_split_join(parts: Seq<Seq<char>>)
    requires
        parts.len() > 0,
        forall|i: int| 0 <= i < parts.len() ==> !(#[trigger] parts[i]).contains(','),
    ensures
        split(join(parts, ","@), ',') == parts,
    decreases parts.len(),
{
    reveal_strlit(",");
    assert(","@ =~= seq![',']);
    if parts.len() == 1 {
        let s = parts[0];
        assert forall|i: int| 0 <= i < s.len() implies #[trigger] s[i] != ',' by {
            assert(s.contains(s[i]));
        }
        lemma_find_is(s, ',', s.len() as int);
        assert(seq![s] =~= parts);
    } else {
        let tail = parts.skip(1);
        assert forall|i: int| 0 <= i < tail.len() implies !(#[trigger] tail[i]).contains(',') by {
            assert(tail[i] == parts[i + 1]);
        }
        lemma_split_join(tail);
        lemma_join_front(parts, ","@);
        lemma_split_front(parts[0], ',', join(tail, ","@));
        assert(seq![parts[0]] + tail =~= parts);
    }
}

proof fn lemma_trimmed_pieces_id(parts: Seq<Seq<char>>)
    requires
        forall|i: int| 0 <= i < parts.len() ==> clean(#[trigger] parts[i]),
    ensures
        trimmed_pieces(parts) == parts,
    decreases parts.len(),
{
    if parts.len() > 0 {
        let before = parts.drop_last();
        assert forall|i: int| 0 <= i < before.len() implies clean(#[trigger] before[i]) by {
            assert(before[i] == parts[i]);
        }
        lemma_trimmed_pieces_id(before);
        assert(clean(parts[parts.len() - 1]));
        assert(before.push(parts.last()) =~= parts);
    } else {
        assert(trimmed_pieces(parts) =~= parts);
    }
}

/// The texts as tokens.
pub open spec fn as_tokens(parts: Seq<Seq<char>>) -> Seq<Token> {
    parts.map_values(|piece: Seq<char>| token(piece))
}

/// The tokens of a joined list of clean options are those options.
pub proof fn lemma_tokens_join(parts: Seq<Seq<char>>)
    requires
        forall|i: int| 0 <= i < parts.len() ==> clean(#[trigger] parts[i]),
    ensures
        tokens(join(parts, ","@)) == as_tokens(parts),
        listed(join(parts, ","@)) == parts,
{
    if parts.len() == 0 {
        let none = Seq::<char>::empty();
        assert(join(parts, ","@) == none);
        assert(split(none, ',') =~= seq![none]);
        let one = seq![none];
        assert(one.drop_last() =~= Seq::empty());
        assert(trim(none) =~= none);
        assert(trimmed_pieces(one.drop_last()) =~= Seq::empty());
        assert(trimmed_pieces(one) =~= Seq::empty());
        assert(tokens(none) =~= as_tokens(parts));
        assert(listed(none) =~= parts);
    } else {
        assert forall|i: int| 0 <= i < parts.len() implies !(#[trigger] parts[i]).contains(',') by {
            assert(clean(parts[i]));
        }
        lemma_split_join(parts);
        lemma_trimmed_pieces_id(parts);
        lemma_join_not_empty(parts);
    }
}

proof fn lemma_join_not_empty(parts: Seq<Seq<char>>)
    requires
        parts.len() > 0,
        forall|i: int| 0 <= i < parts.len() ==> clean(#[trigger] parts[i]),
    ensures
        join(parts, ","@).len() > 0,
{
    assert(clean(parts[0]));
    assert(clean(parts[parts.len() - 1]));
}

// ---------------------------------------------------------------------------------------------
// Single options
// ---------------------------------------------------------------------------------------------
/// A key that can be written in front of an `=`.
pub open spec fn plain_key(key: Seq<char>) -> bool {
    &&& key.len() > 0
    &&& !key.contains('=')
    &&& !key.contains(',')
    &&& !is_space(key[0])
    &&& !is_space(key.last())
}

/// A token is written as the text that it was read from.
pub proof fn lemma_token_text(piece: Seq<char>)
    ensures
        token_text(token(piece)) == piece,
{
    lemma_find_bounds(piece, '=');
    reveal_strlit("=");
    if find(piece, '=') < piece.len() {
        assert(piece.take(find(piece, '=')) + "="@ + piece.skip(find(piece, '=') + 1) =~= piece);
    }
}

proof fn lemma_flag_text(key: Seq<char>)
    requires
        plain_key(key),
    ensures
        clean(key),
        token(key) == (Token { key, value: None }),
{
    lemma_trim_id(key);
    assert forall|i: int| 0 <= i < key.len() implies #[trigger] key[i] != '=' by {
        assert(key.contains(key[i]));
    }
    lemma_find_is(key, '=', key.len() as int);
}

proof fn lemma_setting_text(key: Seq<char>, v: Seq<char>)
    requires
        plain_key(key),
        v.len() > 0,
        !v.contains(','),
        !is_space(v.last()),
    ensures
        clean(setting(key, v)),
        token(setting(key, v)) == (Token { key, value: Some(v) }),
{
    reveal_strlit("=");
    let s = setting(key, v);
    let n = key.len() as int;
    assert(s[0] == key[0]);
    assert(s.last() == v.last());
    lemma_trim_id(s);
    assert forall|i: int| 0 <= i < n implies #[trigger] s[i] != '=' by {
        assert(s[i] == key[i]);
        assert(key.contains(key[i]));
    }
    assert(s[n] == '=');
    lemma_find_is(s, '=', n);
    assert(s.take(n) =~= key);
    assert(s.skip(n + 1) =~= v);
    if s.contains(',') {
        let i = choose|i: int| 0 <= i < s.len() && s[i] == ',';
        if i < n {
            assert(key[i] == ',');
        } else {
            assert(v[i - n - 1] == ',');
        }
    }
}

proof fn lemma_number_text(key: Seq<char>, n: u32)
    requires
        plain_key(key),
    ensures
        clean(setting(key, decimal(n as nat))),
        token(setting(key, decimal(n as nat))) == (Token {
            key,
            value: Some(decimal(n as nat)),
        }),
        read_u32(decimal(n as nat)) == Some(n),
{
    let d = decimal(n as nat);
    lemma_decimal(n as nat);
    law_read_undoes_print(n);
    assert(is_digit(d[d.len() - 1]));
    if d.contains(',') {
        let i = choose|i: int| 0 <= i < d.len() && d[i] == ',';
        assert(is_digit(d[i]));
    }
    lemma_setting_text(key, d);
}

proof fn lemma_vers_text(v: Seq<char>)
    requires
        valid_vers(v),
    ensures
        v.len() > 0,
        !v.contains(','),
        !is_space(v.last()),
{
    reveal_strlit("3");
    reveal_strlit("4");
    reveal_strlit("4.0");
    reveal_strlit("4.1");
    reveal_strlit("4.2");
}

/// The typed keys are plain and different from each other.
pub proof fn lemma_keys()
    ensures
        plain_key("vers"@) && kind_of("vers"@) == OptionKind::Vers,
        plain_key("hard"@) && kind_of("hard"@) == OptionKind::Hard,
        plain_key("soft"@) && kind_of("soft"@) == OptionKind::Soft,
        plain_key("timeo"@) && kind_of("timeo"@) == OptionKind::Timeo,
        plain_key("retrans"@) && kind_of("retrans"@) == OptionKind::Retrans,
        plain_key("actimeo"@) && kind_of("actimeo"@) == OptionKind::Actimeo,
        plain_key("rsize"@) && kind_of("rsize"@) == OptionKind::Rsize,
        plain_key("wsize"@) && kind_of("wsize"@) == OptionKind::Wsize,
        plain_key("_netdev"@) && kind_of("_netdev"@) == OptionKind::Netdev,
        plain_key("softreval"@) && kind_of("softreval"@) == OptionKind::Other,
        "timeo=50"@ == setting("timeo"@, decimal(50)),
        "retrans=2"@ == setting("retrans"@, decimal(2)),
{
    reveal_strlit("vers");
    reveal_strlit("nfsvers");
    reveal_strlit("hard");
    reveal_strlit("soft");
    reveal_strlit("timeo");
    reveal_strlit("retrans");
    reveal_strlit("actimeo");
    reveal_strlit("rsize");
    reveal_strlit("wsize");
    reveal_strlit("_netdev");
    reveal_strlit("softreval");
    reveal_strlit("timeo=50");
    reveal_strlit("retrans=2");
    reveal_strlit("=");
    assert("vers"@[0] == 'v');
    assert("hard"@[0] == 'h');
    assert("soft"@[0] == 's');
    assert("timeo"@[0] == 't');
    assert("rsize"@[0] == 'r');
    assert("wsize"@[0] == 'w');
    assert("nfsvers"@[0] == 'n');
    assert("retrans"@[0] == 'r');
    assert("actimeo"@[0] == 'a');
    assert("_netdev"@[0] == '_');
    assert("timeo=50"@ =~= setting("timeo"@, decimal(50))) by {
        reveal_with_fuel(decimal, 3);
    }
    assert("retrans=2"@ =~= setting("retrans"@, decimal(2)));
}

// ---------------------------------------------------------------------------------------------
// Lists of options
// ---------------------------------------------------------------------------------------------
spec fn all_clean(parts: Seq<Seq<char>>) -> bool {
    forall|i: int| 0 <= i < parts.len() ==> clean(#[trigger] parts[i])
}

/// The list is made of clean options, none of them faulty, and says `o`.
spec fn says(parts: Seq<Seq<char>>, o: Options) -> bool {
    &&& all_clean(parts)
    &&& first_fault(as_tokens(parts)) is None
    &&& options_of(as_tokens(parts)) == o
}

proof fn lemma_says_one_more(parts: Seq<Seq<char>>, o: Options, p: Seq<char>)
    requires
        says(parts, o),
        clean(p),
        token_fault(token(p)) is None,
    ensures
        says(parts.push(p), with_token(o, token(p))),
        parts + seq![p] == parts.push(p),
{
    assert(parts + seq![p] =~= parts.push(p));
    assert(as_tokens(parts.push(p)) =~= as_tokens(parts).push(token(p)));
    lemma_options_of_push(as_tokens(parts), token(p));
}

proof fn lemma_says_flag(parts: Seq<Seq<char>>, o: Options, key: Seq<char>, set: bool)
    requires
        says(parts, o),
        plain_key(key),
        kind_of(key) == OptionKind::Hard || kind_of(key) == OptionKind::Soft || kind_of(key)
            == OptionKind::Netdev || kind_of(key) == OptionKind::Other,
    ensures
        says(
            parts + flag_part(key, set),
            if set {
                with_token(o, Token { key, value: None })
            } else {
                o
            },
        ),
{
    if set {
        lemma_flag_text(key);
        lemma_says_one_more(parts, o, key);
    } else {
        assert(parts + flag_part(key, set) =~= parts);
    }
}

proof fn lemma_says_number(parts: Seq<Seq<char>>, o: Options, key: Seq<char>, n: Option<u32>)
    requires
        says(parts, o),
        plain_key(key),
        kind_of(key) == OptionKind::Timeo || kind_of(key) == OptionKind::Retrans || kind_of(key)
            == OptionKind::Actimeo || kind_of(key) == OptionKind::Rsize || kind_of(key)
            == OptionKind::Wsize,
        n matches Some(n) ==> in_bounds(kind_of(key), n),
    ensures
        says(
            parts + number_part(key, n),
            match n {
                Some(n) => with_token(o, Token { key, value: Some(decimal(n as nat)) }),
                None => o,
            },
        ),
        n matches Some(n) ==> read_u32(decimal(n as nat)) == Some(n),
{
    match n {
        Some(n) => {
            lemma_number_text(key, n);
            lemma_says_one_more(parts, o, setting(key, decimal(n as nat)));
        },
        None => {
            assert(parts + number_part(key, n) =~= parts);
        },
    }
}

proof fn lemma_says_extra(parts: Seq<Seq<char>>, o: Options, extra: Seq<Seq<char>>)
    requires
        says(parts, o),
        all_clean(extra),
        forall|i: int|
            0 <= i < extra.len() ==> kind_of(token(#[trigger] extra[i]).key) == OptionKind::Other,
    ensures
        says(parts + extra, Options { extra: o.extra + extra, ..o }),
    decreases extra.len(),
{
    if extra.len() == 0 {
        assert(parts + extra =~= parts);
        assert(o.extra + extra =~= o.extra);
    } else {
        let before = extra.drop_last();
        let p = extra.last();
        assert(p == extra[extra.len() - 1]);
        assert forall|i: int| 0 <= i < before.len() implies clean(#[trigger] before[i]) && kind_of(
            token(before[i]).key,
        ) == OptionKind::Other by {
            assert(before[i] == extra[i]);
        }
        lemma_says_extra(parts, o, before);
        lemma_token_text(p);
        lemma_says_one_more(parts + before, Options { extra: o.extra + before, ..o }, p);
        assert((parts + before).push(p) =~= parts + extra);
        assert((o.extra + before).push(p) =~= o.extra + extra);
    }
}

/// The declared options, as rendered, say the options.
proof fn lemma_declared(o: Options)
    requires
        well_typed(o),
    ensures
        says(declared_parts(o), o),
{
    lemma_keys();
    let none = Options {
        vers: None,
        hard: None,
        soft: None,
        timeo: None,
        retrans: None,
        actimeo: None,
        rsize: None,
        wsize: None,
        netdev: false,
        extra: Seq::empty(),
    };
    let e = Seq::<Seq<char>>::empty();
    assert(as_tokens(e) =~= Seq::empty());
    assert(options_of(Seq::empty()) =~= none);
    assert(says(e, none));
    let p0 = text_part("vers"@, o.vers);
    let o0 = Options { vers: o.vers, ..none };
    match o.vers {
        Some(v) => {
            lemma_vers_text(v);
            lemma_setting_text("vers"@, v);
            lemma_says_one_more(e, none, setting("vers"@, v));
            assert(e.push(setting("vers"@, v)) =~= p0);
        },
        None => {
            assert(p0 =~= e);
        },
    }
    assert(says(p0, o0));
    let p1 = p0 + flag_part("hard"@, o.hard == Some(true));
    let o1 = Options { hard: o.hard, ..o0 };
    lemma_says_flag(p0, o0, "hard"@, o.hard == Some(true));
    assert(says(p1, o1));
    let p2 = p1 + flag_part("soft"@, o.soft == Some(true));
    let o2 = Options { soft: o.soft, ..o1 };
    lemma_says_flag(p1, o1, "soft"@, o.soft == Some(true));
    assert(says(p2, o2));
    let p3 = p2 + number_part("timeo"@, o.timeo);
    let o3 = Options { timeo: o.timeo, ..o2 };
    lemma_says_number(p2, o2, "timeo"@, o.timeo);
    assert(says(p3, o3));
    let p4 = p3 + number_part("retrans"@, o.retrans);
    let o4 = Options { retrans: o.retrans, ..o3 };
    lemma_says_number(p3, o3, "retrans"@, o.retrans);
    assert(says(p4, o4));
    let p5 = p4 + number_part("actimeo"@, o.actimeo);
    let o5 = Options { actimeo: o.actimeo, ..o4 };
    lemma_says_number(p4, o4, "actimeo"@, o.actimeo);
    assert(says(p5, o5));
    let p6 = p5 + number_part("rsize"@, o.rsize);
    let o6 = Options { rsize: o.rsize, ..o5 };
    lemma_says_number(p5, o5, "rsize"@, o.rsize);
    assert(says(p6, o6));
    let p7 = p6 + number_part("wsize"@, o.wsize);
    let o7 = Options { wsize: o.wsize, ..o6 };
    lemma_says_number(p6, o6, "wsize"@, o.wsize);
    assert(says(p7, o7));
    let p8 = p7 + flag_part("_netdev"@, o.netdev);
    let o8 = Options { netdev: o.netdev, ..o7 };
    lemma_says_flag(p7, o7, "_netdev"@, o.netdev);
    assert(says(p8, o8));
    lemma_says_extra(p8, o8, o.extra);
    assert(o8.extra + o.extra =~= o.extra);
    assert(p8 + o.extra == declared_parts(o));
}

// ---------------------------------------------------------------------------------------------
// Keys of a list
// ---------------------------------------------------------------------------------------------
proof fn lemma_has_key_push(parts: Seq<Seq<char>>, p: Seq<char>, key: Seq<char>)
    ensures
        has_key(parts.push(p), key) == (has_key(parts, key) || token(p).key == key),
{
    let all = parts.push(p);
    if has_key(parts, key) {
        let i = choose|i: int| 0 <= i < parts.len() && token(#[trigger] parts[i]).key == key;
        assert(all[i] == parts[i]);
    }
    if token(p).key == key {
        assert(all[parts.len() as int] == p);
    }
    if has_key(all, key) {
        let i = choose|i: int| 0 <= i < all.len() && token(#[trigger] all[i]).key == key;
        if i < parts.len() {
            assert(parts[i] == all[i]);
        }
    }
}

/// Which keys a list holds, told by what the list says.
proof fn lemma_keys_of(parts: Seq<Seq<char>>)
    requires
        first_fault(as_tokens(parts)) is None,
    ensures
        has_key(parts, "hard"@) == (options_of(as_tokens(parts)).hard == Some(true)),
        parts.contains("hard"@) == has_key(parts, "hard"@),
        has_key(parts, "soft"@) == (options_of(as_tokens(parts)).soft == Some(true)),
        has_key(parts, "timeo"@) == (options_of(as_tokens(parts)).timeo is Some),
        has_key(parts, "retrans"@) == (options_of(as_tokens(parts)).retrans is Some),
        has_key(parts, "softreval"@) == has_key(options_of(as_tokens(parts)).extra, "softreval"@),
    decreases parts.len(),
{
    lemma_keys();
    let ts = as_tokens(parts);
    if parts.len() == 0 {
        assert(ts =~= Seq::empty());
    } else {
        let before = parts.drop_last();
        let p = parts.last();
        assert(as_tokens(before).push(token(p)) =~= ts);
        assert(before.push(p) =~= parts);
        lemma_options_of_push(as_tokens(before), token(p));
        lemma_keys_of(before);
        lemma_has_key_push(before, p, "hard"@);
        lemma_contains_push(before, p, "hard"@);
        lemma_flag_text("hard"@);
        lemma_has_key_push(before, p, "soft"@);
        lemma_has_key_push(before, p, "timeo"@);
        lemma_has_key_push(before, p, "retrans"@);
        lemma_has_key_push(before, p, "softreval"@);
        lemma_token_text(p);
        lemma_has_key_push(options_of(as_tokens(before)).extra, p, "softreval"@);
    }
}

proof fn lemma_with_default(parts: Seq<Seq<char>>, key: Seq<char>, option: Seq<char>)
    ensures
        with_default(parts, key, option) == parts + flag_part(option, !has_key(parts, key)),
{
    assert(with_default(parts, key, option) =~= parts + flag_part(option, !has_key(parts, key)));
}

/// Adding an option does not touch the other keys.
proof fn lemma_default_keeps(
    parts: Seq<Seq<char>>,
    key: Seq<char>,
    option: Seq<char>,
    other: Seq<char>,
)
    requires
        token(option).key == key,
        key != other,
    ensures
        has_key(with_default(parts, key, option), other) == has_key(parts, other),
{
    lemma_has_key_push(parts, option, other);
}

/// The keys of the defaults.
proof fn lemma_default_keys()
    ensures
        token("soft"@).key == "soft"@,
        token("softreval"@).key == "softreval"@,
        token("timeo=50"@).key == "timeo"@,
        "soft"@ != "softreval"@,
        "soft"@ != "timeo"@,
        "soft"@ != "retrans"@,
        "softreval"@ != "timeo"@,
        "softreval"@ != "retrans"@,
        "timeo"@ != "retrans"@,
{
    lemma_keys();
    lemma_flag_text("soft"@);
    lemma_flag_text("softreval"@);
    lemma_number_text("timeo"@, 50);
}

/// The floor adds the absent defaults at the end.
pub proof fn lemma_floored(d: Seq<Seq<char>>)
    requires
        !d.contains("hard"@),
    ensures
        floored(d) == d + flag_part("soft"@, !has_key(d, "soft"@)) + flag_part(
            "softreval"@,
            !has_key(d, "softreval"@),
        ) + flag_part("timeo=50"@, !has_key(d, "timeo"@)) + flag_part(
            "retrans=2"@,
            !has_key(d, "retrans"@),
        ),
{
    lemma_default_keys();
    let d1 = with_default(d, "soft"@, "soft"@);
    lemma_with_default(d, "soft"@, "soft"@);
    lemma_default_keeps(d, "soft"@, "soft"@, "softreval"@);
    lemma_default_keeps(d, "soft"@, "soft"@, "timeo"@);
    lemma_default_keeps(d, "soft"@, "soft"@, "retrans"@);
    let d2 = with_default(d1, "softreval"@, "softreval"@);
    lemma_with_default(d1, "softreval"@, "softreval"@);
    lemma_default_keeps(d1, "softreval"@, "softreval"@, "timeo"@);
    lemma_default_keeps(d1, "softreval"@, "softreval"@, "retrans"@);
    let d3 = with_default(d2, "timeo"@, "timeo=50"@);
    lemma_with_default(d2, "timeo"@, "timeo=50"@);
    lemma_default_keeps(d2, "timeo"@, "timeo=50"@, "retrans"@);
    lemma_with_default(d3, "retrans"@, "retrans=2"@);
}

proof fn lemma_concat_five(
    a: Seq<Seq<char>>,
    b: Seq<Seq<char>>,
    c: Seq<Seq<char>>,
    d: Seq<Seq<char>>,
    e: Seq<Seq<char>>,
)
    ensures
        a + b + c + d + e == a + (b + c + d + e),
{
    assert(a + b + c + d + e =~= a + (b + c + d + e));
}

/// A list that says `o` says, with the floor, the resilient options.
proof fn lemma_floor_says(d: Seq<Seq<char>>, o: Options)
    requires
        says(d, o),
    ensures
        floored(d) == d + floor_parts(o),
        says(floored(d), resilient(o)),
{
    lemma_keys_of(d);
    if o.hard == Some(true) {
        assert(d + floor_parts(o) =~= d);
    } else {
        let new = !has_key(o.extra, "softreval"@);
        let a = flag_part("soft"@, o.soft != Some(true));
        let b = flag_part("softreval"@, new);
        let c = flag_part("timeo=50"@, o.timeo is None);
        let e = flag_part("retrans=2"@, o.retrans is None);
        lemma_floored(d);
        lemma_concat_five(d, a, b, c, e);
        assert(floored(d) == d + a + b + c + e);
        lemma_keys();
        let d1 = d + a;
        let o1 = Options { soft: Some(true), ..o };
        lemma_says_flag(d, o, "soft"@, o.soft != Some(true));
        assert(says(d1, o1));
        let d2 = d1 + b;
        let o2 = Options { extra: resilient(o).extra, ..o1 };
        lemma_says_flag(d1, o1, "softreval"@, new);
        assert(says(d2, o2));
        let t = if o.timeo is None {
            Some(50u32)
        } else {
            None
        };
        let d3 = d2 + c;
        let o3 = Options { timeo: resilient(o).timeo, ..o2 };
        assert(number_part("timeo"@, t) == c);
        lemma_says_number(d2, o2, "timeo"@, t);
        assert(says(d3, o3));
        let r = if o.retrans is None {
            Some(2u32)
        } else {
            None
        };
        let d4 = d3 + e;
        assert(number_part("retrans"@, r) == e);
        lemma_says_number(d3, o3, "retrans"@, r);
        assert(says(d4, resilient(o)));
    }
}

/// With the floor, the declared options are followed by the absent defaults.
proof fn lemma_with_floor(o: Options)
    requires
        well_typed(o),
    ensures
        floored(listed(join(declared_parts(o), ","@))) == declared_parts(o) + floor_parts(o),
        says(declared_parts(o) + floor_parts(o), resilient(o)),
{
    lemma_declared(o);
    lemma_tokens_join(declared_parts(o));
    lemma_floor_says(declared_parts(o), o);
}

// ---------------------------------------------------------------------------------------------
// Canonical order
// ---------------------------------------------------------------------------------------------
/// Options of one kind.
pub open spec fn uniform(parts: Seq<Seq<char>>, kind: OptionKind) -> bool {
    forall|i: int| 0 <= i < parts.len() ==> kind_of(token(#[trigger] parts[i]).key) == kind
}

/// The declared options of one kind.
spec fn segment(o: Options, kind: OptionKind) -> Seq<Seq<char>> {
    match kind {
        OptionKind::Vers => text_part("vers"@, o.vers),
        OptionKind::Hard => flag_part("hard"@, o.hard == Some(true)),
        OptionKind::Soft => flag_part("soft"@, o.soft == Some(true)),
        OptionKind::Timeo => number_part("timeo"@, o.timeo),
        OptionKind::Retrans => number_part("retrans"@, o.retrans),
        OptionKind::Actimeo => number_part("actimeo"@, o.actimeo),
        OptionKind::Rsize => number_part("rsize"@, o.rsize),
        OptionKind::Wsize => number_part("wsize"@, o.wsize),
        OptionKind::Netdev => flag_part("_netdev"@, o.netdev),
        OptionKind::Other => o.extra,
    }
}

proof fn lemma_of_kind_append(
    a: Seq<Seq<char>>,
    b: Seq<Seq<char>>,
    b_kind: OptionKind,
    kind: OptionKind,
)
    requires
        uniform(b, b_kind),
    ensures
        of_kind(a + b, kind) == if b_kind == kind {
            of_kind(a, kind) + b
        } else {
            of_kind(a, kind)
        },
    decreases b.len(),
{
    reveal(Seq::filter);
    if b.len() == 0 {
        assert(a + b =~= a);
        assert(of_kind(a, kind) + b =~= of_kind(a, kind));
    } else {
        let c = b.drop_last();
        assert forall|i: int| 0 <= i < c.len() implies kind_of(token(#[trigger] c[i]).key)
            == b_kind by {
            assert(c[i] == b[i]);
        }
        lemma_of_kind_append(a, c, b_kind, kind);
        assert((a + b).drop_last() =~= a + c);
        assert((a + b).last() == b[b.len() - 1]);
        assert((of_kind(a, kind) + c).push(b.last()) =~= of_kind(a, kind) + b);
    }
}

proof fn lemma_segments_uniform(o: Options)
    requires
        well_typed(o),
    ensures
        forall|kind: OptionKind| uniform(#[trigger] segment(o, kind), kind),
{
    lemma_keys();
    lemma_flag_text("hard"@);
    lemma_flag_text("soft"@);
    lemma_flag_text("_netdev"@);
    assert forall|kind: OptionKind| uniform(#[trigger] segment(o, kind), kind) by {
        match kind {
            OptionKind::Vers => {
                if let Some(v) = o.vers {
                    lemma_vers_text(v);
                    lemma_setting_text("vers"@, v);
                }
            },
            OptionKind::Timeo => {
                if let Some(n) = o.timeo {
                    lemma_number_text("timeo"@, n);
                }
            },
            OptionKind::Retrans => {
                if let Some(n) = o.retrans {
                    lemma_number_text("retrans"@, n);
                }
            },
            OptionKind::Actimeo => {
                if let Some(n) = o.actimeo {
                    lemma_number_text("actimeo"@, n);
                }
            },
            OptionKind::Rsize => {
                if let Some(n) = o.rsize {
                    lemma_number_text("rsize"@, n);
                }
            },
            OptionKind::Wsize => {
                if let Some(n) = o.wsize {
                    lemma_number_text("wsize"@, n);
                }
            },
            _ => {},
        }
    }
}

/// In a list that is sorted by kind, the options of one kind stand together.
pub proof fn lemma_of_kind_sorted(
    vers: Seq<Seq<char>>,
    hard: Seq<Seq<char>>,
    soft: Seq<Seq<char>>,
    timeo: Seq<Seq<char>>,
    retrans: Seq<Seq<char>>,
    actimeo: Seq<Seq<char>>,
    rsize: Seq<Seq<char>>,
    wsize: Seq<Seq<char>>,
    netdev: Seq<Seq<char>>,
    other: Seq<Seq<char>>,
    kind: OptionKind,
)
    requires
        uniform(vers, OptionKind::Vers),
        uniform(hard, OptionKind::Hard),
        uniform(soft, OptionKind::Soft),
        uniform(timeo, OptionKind::Timeo),
        uniform(retrans, OptionKind::Retrans),
        uniform(actimeo, OptionKind::Actimeo),
        uniform(rsize, OptionKind::Rsize),
        uniform(wsize, OptionKind::Wsize),
        uniform(netdev, OptionKind::Netdev),
        uniform(other, OptionKind::Other),
    ensures
        of_kind(
            vers + hard + soft + timeo + retrans + actimeo + rsize + wsize + netdev + other,
            kind,
        ) == match kind {
            OptionKind::Vers => vers,
            OptionKind::Hard => hard,
            OptionKind::Soft => soft,
            OptionKind::Timeo => timeo,
            OptionKind::Retrans => retrans,
            OptionKind::Actimeo => actimeo,
            OptionKind::Rsize => rsize,
            OptionKind::Wsize => wsize,
            OptionKind::Netdev => netdev,
            OptionKind::Other => other,
        },
{
    let none = Seq::<Seq<char>>::empty();
    assert(of_kind(none, kind) == none) by {
        reveal(Seq::filter);
    }
    assert(none + vers == vers) by {
        assert(none + vers =~= vers);
    }
    lemma_one_kind_more(none, none, vers, OptionKind::Vers, kind);
    let p = vers;
    let x = if kind == OptionKind::Vers {
        vers
    } else {
        none
    };
    assert(of_kind(p, kind) == x);
    lemma_one_kind_more(p, x, hard, OptionKind::Hard, kind);
    let p = p + hard;
    let x = if kind == OptionKind::Hard {
        hard
    } else {
        x
    };
    assert(of_kind(p, kind) == x);
    lemma_one_kind_more(p, x, soft, OptionKind::Soft, kind);
    let p = p + soft;
    let x = if kind == OptionKind::Soft {
        soft
    } else {
        x
    };
    assert(of_kind(p, kind) == x);
    lemma_one_kind_more(p, x, timeo, OptionKind::Timeo, kind);
    let p = p + timeo;
    let x = if kind == OptionKind::Timeo {
        timeo
    } else {
        x
    };
    assert(of_kind(p, kind) == x);
    lemma_one_kind_more(p, x, retrans, OptionKind::Retrans, kind);
    let p = p + retrans;
    let x = if kind == OptionKind::Retrans {
        retrans
    } else {
        x
    };
    assert(of_kind(p, kind) == x);
    lemma_one_kind_more(p, x, actimeo, OptionKind::Actimeo, kind);
    let p = p + actimeo;
    let x = if kind == OptionKind::Actimeo {
        actimeo
    } else {
        x
    };
    assert(of_kind(p, kind) == x);
    lemma_one_kind_more(p, x, rsize, OptionKind::Rsize, kind);
    let p = p + rsize;
    let x = if kind == OptionKind::Rsize {
        rsize
    } else {
        x
    };
    assert(of_kind(p, kind) == x);
    lemma_one_kind_more(p, x, wsize, OptionKind::Wsize, kind);
    let p = p + wsize;
    let x = if kind == OptionKind::Wsize {
        wsize
    } else {
        x
    };
    assert(of_kind(p, kind) == x);
    lemma_one_kind_more(p, x, netdev, OptionKind::Netdev, kind);
    let p = p + netdev;
    let x = if kind == OptionKind::Netdev {
        netdev
    } else {
        x
    };
    assert(of_kind(p, kind) == x);
    lemma_one_kind_more(p, x, other, OptionKind::Other, kind);
}

/// One kind more behind a list that does not hold it.
proof fn lemma_one_kind_more(
    parts: Seq<Seq<char>>,
    held: Seq<Seq<char>>,
    more: Seq<Seq<char>>,
    more_kind: OptionKind,
    kind: OptionKind,
)
    requires
        uniform(more, more_kind),
        of_kind(parts, kind) == held,
        more_kind == kind ==> held.len() == 0,
    ensures
        of_kind(parts + more, kind) == if more_kind == kind {
            more
        } else {
            held
        },
{
    lemma_of_kind_append(parts, more, more_kind, kind);
    if more_kind == kind {
        assert(held + more =~= more);
    }
}

/// The declared options of one kind stand together.
proof fn lemma_declared_of_kind(o: Options, kind: OptionKind)
    requires
        well_typed(o),
    ensures
        of_kind(declared_parts(o), kind) == segment(o, kind),
{
    lemma_segments_uniform(o);
    lemma_of_kind_sorted(
        segment(o, OptionKind::Vers),
        segment(o, OptionKind::Hard),
        segment(o, OptionKind::Soft),
        segment(o, OptionKind::Timeo),
        segment(o, OptionKind::Retrans),
        segment(o, OptionKind::Actimeo),
        segment(o, OptionKind::Rsize),
        segment(o, OptionKind::Wsize),
        segment(o, OptionKind::Netdev),
        segment(o, OptionKind::Other),
        kind,
    );
}

/// What four more segments add to the options of one kind.
proof fn lemma_of_kind_floor(
    d: Seq<Seq<char>>,
    soft: Seq<Seq<char>>,
    softreval: Seq<Seq<char>>,
    timeo: Seq<Seq<char>>,
    retrans: Seq<Seq<char>>,
    kind: OptionKind,
)
    requires
        uniform(soft, OptionKind::Soft),
        uniform(softreval, OptionKind::Other),
        uniform(timeo, OptionKind::Timeo),
        uniform(retrans, OptionKind::Retrans),
    ensures
        of_kind(d + (soft + softreval + timeo + retrans), kind) == match kind {
            OptionKind::Soft => of_kind(d, kind) + soft,
            OptionKind::Other => of_kind(d, kind) + softreval,
            OptionKind::Timeo => of_kind(d, kind) + timeo,
            OptionKind::Retrans => of_kind(d, kind) + retrans,
            _ => of_kind(d, kind),
        },
{
    lemma_concat_five(d, soft, softreval, timeo, retrans);
    lemma_of_kind_append(d, soft, OptionKind::Soft, kind);
    lemma_of_kind_append(d + soft, softreval, OptionKind::Other, kind);
    lemma_of_kind_append(d + soft + softreval, timeo, OptionKind::Timeo, kind);
    lemma_of_kind_append(d + soft + softreval + timeo, retrans, OptionKind::Retrans, kind);
}

proof fn lemma_floor_uniform(o: Options)
    ensures
        uniform(flag_part("soft"@, o.soft != Some(true)), OptionKind::Soft),
        uniform(flag_part("softreval"@, !has_key(o.extra, "softreval"@)), OptionKind::Other),
        uniform(flag_part("timeo=50"@, o.timeo is None), OptionKind::Timeo),
        uniform(flag_part("retrans=2"@, o.retrans is None), OptionKind::Retrans),
{
    lemma_keys();
    lemma_default_keys();
    lemma_number_text("retrans"@, 2);
}

/// What the floor adds makes the declared options of a kind those of the resilient set.
proof fn lemma_segment_resilient(o: Options, kind: OptionKind)
    requires
        o.hard != Some(true),
    ensures
        segment(resilient(o), kind) == match kind {
            OptionKind::Soft => segment(o, kind) + flag_part("soft"@, o.soft != Some(true)),
            OptionKind::Other => segment(o, kind) + flag_part(
                "softreval"@,
                !has_key(o.extra, "softreval"@),
            ),
            OptionKind::Timeo => segment(o, kind) + flag_part("timeo=50"@, o.timeo is None),
            OptionKind::Retrans => segment(o, kind) + flag_part("retrans=2"@, o.retrans is None),
            _ => segment(o, kind),
        },
{
    let s = segment(resilient(o), kind);
    let held = segment(o, kind);
    match kind {
        OptionKind::Soft => {
            assert(s =~= held + flag_part("soft"@, o.soft != Some(true)));
        },
        OptionKind::Other => {
            assert(s =~= held + flag_part("softreval"@, !has_key(o.extra, "softreval"@)));
        },
        OptionKind::Timeo => {
            lemma_keys();
            assert(s =~= held + flag_part("timeo=50"@, o.timeo is None));
        },
        OptionKind::Retrans => {
            lemma_keys();
            assert(s =~= held + flag_part("retrans=2"@, o.retrans is None));
        },
        _ => {},
    }
}

/// With the floor, the options of one kind are those of the resilient set.
proof fn lemma_floored_of_kind(d: Seq<Seq<char>>, o: Options, kind: OptionKind)
    requires
        of_kind(d, kind) == segment(o, kind),
    ensures
        of_kind(d + floor_parts(o), kind) == segment(resilient(o), kind),
{
    if o.hard == Some(true) {
        lemma_append_nothing(d, floor_parts(o));
    } else {
        let soft = flag_part("soft"@, o.soft != Some(true));
        let softreval = flag_part("softreval"@, !has_key(o.extra, "softreval"@));
        let timeo = flag_part("timeo=50"@, o.timeo is None);
        let retrans = flag_part("retrans=2"@, o.retrans is None);
        assert(floor_parts(o) == soft + softreval + timeo + retrans);
        lemma_floor_uniform(o);
        lemma_of_kind_floor(d, soft, softreval, timeo, retrans, kind);
        lemma_segment_resilient(o, kind);
    }
}

proof fn lemma_append_nothing(parts: Seq<Seq<char>>, nothing: Seq<Seq<char>>)
    requires
        nothing.len() == 0,
    ensures
        parts + nothing == parts,
{
    assert(parts + nothing =~= parts);
}

/// A list that holds of each kind what `o` declares is, in order, the declared list.
proof fn lemma_in_order(parts: Seq<Seq<char>>, o: Options)
    requires
        forall|kind: OptionKind| #[trigger] of_kind(parts, kind) == segment(o, kind),
    ensures
        in_order(parts) == declared_parts(o),
{
    let a = of_kind(parts, OptionKind::Vers) + of_kind(parts, OptionKind::Hard) + of_kind(
        parts,
        OptionKind::Soft,
    ) + of_kind(parts, OptionKind::Timeo) + of_kind(parts, OptionKind::Retrans);
    let b = segment(o, OptionKind::Vers) + segment(o, OptionKind::Hard) + segment(
        o,
        OptionKind::Soft,
    ) + segment(o, OptionKind::Timeo) + segment(o, OptionKind::Retrans);
    assert(a == b);
}

// ---------------------------------------------------------------------------------------------
// Laws
// ---------------------------------------------------------------------------------------------
/// What is rendered is the declared options with the resilient defaults, in canonical order.
pub proof fn law_rendered_in_canonical_order(o: Options)
    requires
        well_typed(o),
    ensures
        rendered_parts(o) == declared_parts(resilient(o)),
        render(o) == join(declared_parts(resilient(o)), ","@),
{
    let s = resilient(o);
    let all = declared_parts(o) + floor_parts(o);
    assert(floored(listed(join(declared_parts(o), ","@))) == all) by {
        lemma_with_floor(o);
    }
    assert forall|kind: OptionKind| #[trigger] of_kind(all, kind) == segment(s, kind) by {
        lemma_declared_of_kind(o, kind);
        lemma_floored_of_kind(declared_parts(o), o, kind);
    }
    lemma_in_order(all, s);
}

/// Rendered options read back as the declared options with the resilient defaults: whatever is
/// declared survives, `hard` is left untouched, and every other mount is soft and fails fast.
pub proof fn law_render_reads_back(o: Options)
    requires
        well_typed(o),
    ensures
        well_typed(resilient(o)),
        read_options(render(o)) == Ok::<Options, Fault>(resilient(o)),
{
    let s = resilient(o);
    lemma_resilient(o);
    law_rendered_in_canonical_order(o);
    lemma_declared(s);
    let all = declared_parts(s);
    lemma_tokens_join(all);
    let ts = as_tokens(all);
    assert(options_of(ts).hard == flag(has_kind(ts, OptionKind::Hard)));
    assert(options_of(ts).soft == flag(has_kind(ts, OptionKind::Soft)));
}

/// The rendered string splits into the options that it was joined from.
pub proof fn lemma_rendered_clean(o: Options)
    requires
        well_typed(o),
    ensures
        split(render(o), ',') == declared_parts(resilient(o)),
{
    let s = resilient(o);
    lemma_resilient(o);
    law_rendered_in_canonical_order(o);
    lemma_declared(s);
    let all = declared_parts(s);
    lemma_tokens_join(all);
    lemma_keys_of(all);
    assert(s.hard == Some(true) || s.soft == Some(true));
    assert(all.len() > 0);
    lemma_join_not_empty(all);
}

/// The clean pieces of an option string, as texts.
proof fn lemma_pieces_clean(pieces: Seq<Seq<char>>)
    requires
        forall|i: int| 0 <= i < pieces.len() ==> !(#[trigger] pieces[i]).contains(','),
    ensures
        all_clean(trimmed_pieces(pieces)),
    decreases pieces.len(),
{
    if pieces.len() > 0 {
        let before = pieces.drop_last();
        assert forall|i: int| 0 <= i < before.len() implies !(#[trigger] before[i]).contains(
            ',',
        ) by {
            assert(before[i] == pieces[i]);
        }
        lemma_pieces_clean(before);
        let p = pieces.last();
        assert(p == pieces[pieces.len() - 1]);
        lemma_trim_ends(p);
    }
}

/// Faultless clean options are typed as they should be, but for `hard` beside `soft`.
spec fn typed_so_far(o: Options) -> bool {
    well_typed(Options { hard: None, soft: None, ..o }) && (o.hard == None::<bool> || o.hard == Some(
        true,
    )) && (o.soft == None::<bool> || o.soft == Some(true))
}

proof fn lemma_clean_parts_typed(parts: Seq<Seq<char>>)
    requires
        all_clean(parts),
        first_fault(as_tokens(parts)) is None,
    ensures
        typed_so_far(options_of(as_tokens(parts))),
    decreases parts.len(),
{
    let ts = as_tokens(parts);
    if parts.len() == 0 {
        assert(ts =~= Seq::empty());
        assert(untyped(ts) =~= Seq::empty());
    } else {
        let before = parts.drop_last();
        let p = parts.last();
        assert forall|i: int| 0 <= i < before.len() implies clean(#[trigger] before[i]) by {
            assert(before[i] == parts[i]);
        }
        assert(clean(parts[parts.len() - 1]));
        assert(as_tokens(before).push(token(p)) =~= ts);
        lemma_options_of_push(as_tokens(before), token(p));
        lemma_clean_parts_typed(before);
        lemma_token_text(p);
    }
}

/// What an option string declares is well typed: a supported version, numbers within their
/// bounds, never both `hard` and `soft`, and nothing typed among the untyped options.
pub proof fn law_read_is_well_typed(raw: Seq<char>)
    requires
        read_options(raw) is Ok,
    ensures
        well_typed(read_options(raw)->Ok_0),
{
    lemma_split_pieces(raw, ',');
    lemma_pieces_clean(split(raw, ','));
    lemma_clean_parts_typed(trimmed_pieces(split(raw, ',')));
}

/// `hard` and `soft` are mutually exclusive: an option string that declares both is refused.
pub proof fn law_hard_and_soft_exclude_each_other(raw: Seq<char>)
    requires
        has_kind(tokens(raw), OptionKind::Hard),
        has_kind(tokens(raw), OptionKind::Soft),
    ensures
        read_options(raw) is Err,
{
}

/// Options that are not typed ride through verbatim and in order.
pub proof fn law_untyped_options_ride_through(raw: Seq<char>)
    requires
        read_options(raw) is Ok,
    ensures
        read_options(raw)->Ok_0.extra == trimmed_pieces(split(raw, ',')).filter(
            |piece: Seq<char>| kind_of(token(piece).key) == OptionKind::Other,
        ),
{
    lemma_untyped_is_filter(trimmed_pieces(split(raw, ',')));
}

proof fn lemma_untyped_is_filter(parts: Seq<Seq<char>>)
    ensures
        untyped(as_tokens(parts)) == parts.filter(
            |piece: Seq<char>| kind_of(token(piece).key) == OptionKind::Other,
        ),
    decreases parts.len(),
{
    reveal(Seq::filter);
    if parts.len() == 0 {
        assert(as_tokens(parts) =~= Seq::empty());
    } else {
        assert(as_tokens(parts).drop_last() =~= as_tokens(parts.drop_last()));
        lemma_untyped_is_filter(parts.drop_last());
        lemma_token_text(parts.last());
    }
}

/// An explicit `hard` gets nothing added. Without it the declared options are all there, each as
/// often as declared, and beside them only defaults, each with a key of its own that was not
/// declared; `soft`, `softreval`, a `timeo` and a `retrans` are then there.
pub proof fn law_safety_floor(o: Options)
    requires
        well_typed(o),
    ensures
        o.hard == Some(true) ==> rendered_parts(o) == declared_parts(o),
        rendered_parts(o).to_multiset() == (declared_parts(o) + floor_parts(o)).to_multiset(),
        o.hard != Some(true) ==> has_key(rendered_parts(o), "soft"@) && has_key(
            rendered_parts(o),
            "softreval"@,
        ) && has_key(rendered_parts(o), "timeo"@) && has_key(rendered_parts(o), "retrans"@),
        forall|i: int|
            0 <= i < floor_parts(o).len() ==> !has_key(
                declared_parts(o),
                token(#[trigger] floor_parts(o)[i]).key,
            ),
        forall|i: int, j: int|
            0 <= i < j < floor_parts(o).len() ==> token(#[trigger] floor_parts(o)[i]).key != token(
                #[trigger] floor_parts(o)[j],
            ).key,
{
    let f = floor_parts(o);
    lemma_resilient(o);
    law_rendered_in_canonical_order(o);
    lemma_same_options(o);
    lemma_declared(resilient(o));
    lemma_keys_of(rendered_parts(o));
    if o.hard != Some(true) {
        assert forall|i: int| 0 <= i < f.len() implies !has_key(
            declared_parts(o),
            token(#[trigger] f[i]).key,
        ) by {
            lemma_floor_part(o, i);
        }
        assert forall|i: int, j: int| 0 <= i < j < f.len() implies token(#[trigger] f[i]).key
            != token(#[trigger] f[j]).key by {
            lemma_floor_distinct(o, i, j);
        }
    }
}

/// Each added default has a key that is absent from the declared options.
proof fn lemma_floor_part(o: Options, k: int)
    requires
        well_typed(o),
        o.hard != Some(true),
        0 <= k < floor_parts(o).len(),
    ensures
        !has_key(declared_parts(o), token(floor_parts(o)[k]).key),
{
    lemma_declared(o);
    lemma_keys_of(declared_parts(o));
    lemma_default_keys();
    lemma_keys();
    lemma_number_text("retrans"@, 2);
    let p = floor_parts(o)[k];
    assert((p == "soft"@ && o.soft != Some(true)) || (p == "softreval"@ && !has_key(
        o.extra,
        "softreval"@,
    )) || (p == "timeo=50"@ && o.timeo is None) || (p == "retrans=2"@ && o.retrans is None));
}

proof fn lemma_floor_distinct(o: Options, i: int, j: int)
    requires
        o.hard != Some(true),
        0 <= i < j < floor_parts(o).len(),
    ensures
        token(floor_parts(o)[i]).key != token(floor_parts(o)[j]).key,
{
    lemma_default_keys();
    lemma_keys();
    lemma_number_text("retrans"@, 2);
    let a = flag_part("soft"@, o.soft != Some(true));
    let b = flag_part("softreval"@, !has_key(o.extra, "softreval"@));
    let c = flag_part("timeo=50"@, o.timeo is None);
    let e = flag_part("retrans=2"@, o.retrans is None);
    assert(floor_parts(o) == a + b + c + e);
}

/// The floor on any list of options. A list with `hard` is left as it is. Any other keeps its
/// options in order and gets, behind them, each default whose key it lacks, and so has all four
/// keys. Keys are compared whole: `softreval` does not count as `soft`. A second floor changes
/// nothing.
pub proof fn law_floor_is_idempotent(parts: Seq<Seq<char>>)
    ensures
        floored(floored(parts)) == floored(parts),
        parts.contains("hard"@) ==> floored(parts) == parts,
        !parts.contains("hard"@) ==> {
            &&& floored(parts) == parts + (flag_part("soft"@, !has_key(parts, "soft"@)) + flag_part(
                "softreval"@,
                !has_key(parts, "softreval"@),
            ) + flag_part("timeo=50"@, !has_key(parts, "timeo"@)) + flag_part(
                "retrans=2"@,
                !has_key(parts, "retrans"@),
            ))
            &&& has_key(floored(parts), "soft"@)
            &&& has_key(floored(parts), "softreval"@)
            &&& has_key(floored(parts), "timeo"@)
            &&& has_key(floored(parts), "retrans"@)
            &&& !floored(parts).contains("hard"@)
        },
{
    if !parts.contains("hard"@) {
        let a = flag_part("soft"@, !has_key(parts, "soft"@));
        let b = flag_part("softreval"@, !has_key(parts, "softreval"@));
        let c = flag_part("timeo=50"@, !has_key(parts, "timeo"@));
        let e = flag_part("retrans=2"@, !has_key(parts, "retrans"@));
        lemma_floored(parts);
        lemma_concat_five(parts, a, b, c, e);
        lemma_floor_keys(parts);
    }
}

/// With the floor all four keys are there, and still no `hard`.
proof fn lemma_floor_keys(parts: Seq<Seq<char>>)
    requires
        !parts.contains("hard"@),
    ensures
        has_key(floored(parts), "soft"@),
        has_key(floored(parts), "softreval"@),
        has_key(floored(parts), "timeo"@),
        has_key(floored(parts), "retrans"@),
        !floored(parts).contains("hard"@),
{
    lemma_default_keys();
    lemma_keys();
    lemma_flag_text("hard"@);
    lemma_number_text("retrans"@, 2);
    let d1 = with_default(parts, "soft"@, "soft"@);
    let d2 = with_default(d1, "softreval"@, "softreval"@);
    let d3 = with_default(d2, "timeo"@, "timeo=50"@);
    let d4 = with_default(d3, "retrans"@, "retrans=2"@);
    lemma_default_added(parts, "soft"@, "soft"@);
    lemma_default_added(d1, "softreval"@, "softreval"@);
    lemma_default_added(d2, "timeo"@, "timeo=50"@);
    lemma_default_added(d3, "retrans"@, "retrans=2"@);
    lemma_default_keeps(d1, "softreval"@, "softreval"@, "soft"@);
    lemma_default_keeps(d2, "timeo"@, "timeo=50"@, "soft"@);
    lemma_default_keeps(d2, "timeo"@, "timeo=50"@, "softreval"@);
    lemma_default_keeps(d3, "retrans"@, "retrans=2"@, "soft"@);
    lemma_default_keeps(d3, "retrans"@, "retrans=2"@, "softreval"@);
    lemma_default_keeps(d3, "retrans"@, "retrans=2"@, "timeo"@);
}

proof fn lemma_default_added(parts: Seq<Seq<char>>, key: Seq<char>, option: Seq<char>)
    requires
        token(option).key == key,
        key != "hard"@,
    ensures
        has_key(with_default(parts, key, option), key),
        with_default(parts, key, option).contains("hard"@) == parts.contains("hard"@),
{
    lemma_has_key_push(parts, option, key);
    lemma_contains_push(parts, option, "hard"@);
    lemma_keys();
    lemma_flag_text("hard"@);
}

/// Rendering is idempotent: what a rendered string reads as renders to that string.
pub proof fn law_second_render_changes_nothing(o: Options)
    requires
        well_typed(o),
    ensures
        read_options(render(o)) is Ok,
        render(read_options(render(o))->Ok_0) == render(o),
{
    lemma_resilient(o);
    law_render_reads_back(o);
    law_rendered_in_canonical_order(o);
    law_rendered_in_canonical_order(resilient(o));
}

proof fn lemma_resilient(o: Options)
    requires
        well_typed(o),
    ensures
        well_typed(resilient(o)),
        resilient(resilient(o)) == resilient(o),
        o.hard != Some(true) ==> has_key(resilient(o).extra, "softreval"@),
{
    lemma_keys();
    lemma_flag_text("softreval"@);
    if o.hard != Some(true) && !has_key(o.extra, "softreval"@) {
        lemma_has_key_push(o.extra, "softreval"@, "softreval"@);
    }
}

/// The declared options of the resilient set are the rendered options in another order.
proof fn lemma_same_options(o: Options)
    requires
        well_typed(o),
    ensures
        declared_parts(resilient(o)).to_multiset() == (declared_parts(o) + floor_parts(
            o,
        )).to_multiset(),
{
    let s = resilient(o);
    if o.hard == Some(true) {
        assert(declared_parts(o) + floor_parts(o) =~= declared_parts(o));
    } else {
        let v = text_part("vers"@, o.vers);
        let h = flag_part("hard"@, o.hard == Some(true));
        let so = flag_part("soft"@, o.soft == Some(true));
        let t = number_part("timeo"@, o.timeo);
        let r = number_part("retrans"@, o.retrans);
        let ac = number_part("actimeo"@, o.actimeo);
        let rs = number_part("rsize"@, o.rsize);
        let ws = number_part("wsize"@, o.wsize);
        let nd = flag_part("_netdev"@, o.netdev);
        let a = flag_part("soft"@, o.soft != Some(true));
        let b = flag_part("softreval"@, !has_key(o.extra, "softreval"@));
        let c = flag_part("timeo=50"@, o.timeo is None);
        let e = flag_part("retrans=2"@, o.retrans is None);
        assert(so + a == flag_part("soft"@, true)) by {
            assert(so + a =~= flag_part("soft"@, true));
        }
        assert(t + c == number_part("timeo"@, s.timeo)) by {
            lemma_keys();
            assert(t + c =~= number_part("timeo"@, s.timeo));
        }
        assert(r + e == number_part("retrans"@, s.retrans)) by {
            lemma_keys();
            assert(r + e =~= number_part("retrans"@, s.retrans));
        }
        assert(o.extra + b == s.extra) by {
            assert(o.extra + b =~= s.extra);
        }
        lemma_reorder(v, h, so, t, r, ac, rs, ws, nd, o.extra, a, b, c, e);
    }
}

proof fn lemma_reorder(
    v: Seq<Seq<char>>,
    h: Seq<Seq<char>>,
    so: Seq<Seq<char>>,
    t: Seq<Seq<char>>,
    r: Seq<Seq<char>>,
    ac: Seq<Seq<char>>,
    rs: Seq<Seq<char>>,
    ws: Seq<Seq<char>>,
    nd: Seq<Seq<char>>,
    x: Seq<Seq<char>>,
    a: Seq<Seq<char>>,
    b: Seq<Seq<char>>,
    c: Seq<Seq<char>>,
    e: Seq<Seq<char>>,
)
    ensures
        (v + h + (so + a) + (t + c) + (r + e) + ac + rs + ws + nd + (x + b)).to_multiset() == (
            v + h + so + t + r + ac + rs + ws + nd + x + (a + b + c + e)).to_multiset(),
{
    broadcast use group_to_multiset_ensures;

    lemma_multiset_commutative(so, a);
    lemma_multiset_commutative(t, c);
    lemma_multiset_commutative(r, e);
    lemma_multiset_commutative(x, b);
    lemma_multiset_commutative(v, h);
    lemma_multiset_commutative(v + h, so + a);
    lemma_multiset_commutative(v + h + (so + a), t + c);
    lemma_multiset_commutative(v + h + (so + a) + (t + c), r + e);
    lemma_multiset_commutative(v + h + (so + a) + (t + c) + (r + e), ac);
    lemma_multiset_commutative(v + h + (so + a) + (t + c) + (r + e) + ac, rs);
    lemma_multiset_commutative(v + h + (so + a) + (t + c) + (r + e) + ac + rs, ws);
    lemma_multiset_commutative(v + h + (so + a) + (t + c) + (r + e) + ac + rs + ws, nd);
    lemma_multiset_commutative(v + h + (so + a) + (t + c) + (r + e) + ac + rs + ws + nd, x + b);
    lemma_multiset_commutative(v, h);
    lemma_multiset_commutative(v + h, so);
    lemma_multiset_commutative(v + h + so, t);
    lemma_multiset_commutative(v + h + so + t, r);
    lemma_multiset_commutative(v + h + so + t + r, ac);
    lemma_multiset_commutative(v + h + so + t + r + ac, rs);
    lemma_multiset_commutative(v + h + so + t + r + ac + rs, ws);
    lemma_multiset_commutative(v + h + so + t + r + ac + rs + ws, nd);
    lemma_multiset_commutative(v + h + so + t + r + ac + rs + ws + nd, x);
    lemma_multiset_commutative(a, b);
    lemma_multiset_commutative(a + b, c);
    lemma_multiset_commutative(a + b + c, e);
    lemma_multiset_commutative(v + h + so + t + r + ac + rs + ws + nd + x, a + b + c + e);
    assert((v + h + (so + a) + (t + c) + (r + e) + ac + rs + ws + nd + (x + b)).to_multiset() =~= (
        v + h + so + t + r + ac + rs + ws + nd + x + (a + b + c + e)).to_multiset());
}

} // verus!
