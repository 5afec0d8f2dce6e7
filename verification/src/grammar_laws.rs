//! What an option string says, told by the pieces that it is put together from.
use vstd::prelude::*;
use vstd::string::*;

use crate::error::Fault;
use crate::filtering::lemma_filter_subset;
use crate::number::{decimal, read_u32};
use crate::option_laws::{
    law_read_is_well_typed, law_render_reads_back, lemma_floored, lemma_keys,
    lemma_of_kind_sorted, lemma_rendered_clean, lemma_token_text, plain_key, uniform,
};
use crate::options::{
    OptionKind, Options, Token, first_fault, flag, flag_part, floored, has_key, has_kind,
    in_order, kind_of, lemma_options_of_push, number_of, number_part, of_kind, options_of,
    read_options, render, resilient, setting, text_part, token, token_fault, token_text, tokens,
    trimmed_pieces, with_token,
};
use crate::text::{is_space, join, split};
use crate::text_laws::{
    blank, law_split_divides_at_each_separator, law_split_once_divides_at_the_first_separator,
    law_trim_removes_surrounding_whitespace, lemma_split_append, tight,
};

verus! {

/// A text that can stand as one option: something without a comma and without whitespace around
/// it.
pub open spec fn an_option(piece: Seq<char>) -> bool {
    piece.len() > 0 && tight(piece) && !piece.contains(',')
}

/// No option at all.
pub open spec fn nothing_declared() -> Options {
    Options {
        vers: None,
        hard: None,
        soft: None,
        timeo: None,
        retrans: None,
        actimeo: None,
        rsize: None,
        wsize: None,
        netdev: false,
        extra: Seq::empty(),
    }
}

// ---------------------------------------------------------------------------------------------
// Tokens
// ---------------------------------------------------------------------------------------------
/// A piece is a key and what stands behind its first `=`, or a key alone where it has none; its
/// text is the piece again.
pub proof fn law_token_divides_at_the_first_equals_sign(key: Seq<char>, value: Seq<char>)
    requires
        !key.contains('='),
    ensures
        token(key) == (Token { key, value: None }),
        token(key + "="@ + value) == (Token { key, value: Some(value) }),
        token_text(Token { key, value: None }) == key,
        token_text(Token { key, value: Some(value) }) == key + "="@ + value,
{
    reveal_strlit("=");
    assert("="@ =~= seq!['=']);
    law_split_once_divides_at_the_first_separator(key, '=', value);
}

proof fn lemma_trimmed_pieces_append(a: Seq<Seq<char>>, b: Seq<Seq<char>>)
    ensures
        trimmed_pieces(a + b) == trimmed_pieces(a) + trimmed_pieces(b),
    decreases b.len(),
{
    if b.len() == 0 {
        assert(a + b =~= a);
        assert(trimmed_pieces(a) + trimmed_pieces(b) =~= trimmed_pieces(a));
    } else {
        lemma_trimmed_pieces_append(a, b.drop_last());
        assert((a + b).drop_last() =~= a + b.drop_last());
        assert((a + b).last() == b.last());
        assert(trimmed_pieces(a + b) =~= trimmed_pieces(a) + trimmed_pieces(b));
    }
}

/// Two option strings with a comma between them hold the tokens of the first, then those of the
/// second. One option, with whatever whitespace around it, is one token, and whitespace is none.
pub proof fn law_tokens_stand_between_commas(
    a: Seq<char>,
    b: Seq<char>,
    before: Seq<char>,
    piece: Seq<char>,
    after: Seq<char>,
)
    requires
        blank(before),
        blank(after),
        an_option(piece),
    ensures
        tokens(a + seq![','] + b) == tokens(a) + tokens(b),
        tokens(before + piece + after) == seq![token(piece)],
        tokens(before) == Seq::<Token>::empty(),
{
    lemma_split_append(a, ',', b);
    lemma_trimmed_pieces_append(split(a, ','), split(b, ','));
    assert(tokens(a + seq![','] + b) =~= tokens(a) + tokens(b));
    lemma_one_piece(before, piece, after);
    lemma_no_piece(before);
}

proof fn lemma_blank_has_no_comma(s: Seq<char>)
    requires
        blank(s),
    ensures
        !s.contains(','),
{
    if s.contains(',') {
        let i = choose|i: int| 0 <= i < s.len() && s[i] == ',';
        assert(is_space(s[i]));
    }
}

proof fn lemma_one_piece(before: Seq<char>, piece: Seq<char>, after: Seq<char>)
    requires
        blank(before),
        blank(after),
        an_option(piece),
    ensures
        tokens(before + piece + after) == seq![token(piece)],
{
    let s = before + piece + after;
    lemma_blank_has_no_comma(before);
    lemma_blank_has_no_comma(after);
    if s.contains(',') {
        let i = choose|i: int| 0 <= i < s.len() && s[i] == ',';
        if i < before.len() {
            assert(before[i] == ',');
        } else if i < before.len() + piece.len() {
            assert(piece[i - before.len()] == ',');
        } else {
            assert(after[i - before.len() - piece.len()] == ',');
        }
    }
    law_split_divides_at_each_separator(s, ',', Seq::empty());
    law_trim_removes_surrounding_whitespace(before, piece, after);
    let one = seq![s];
    assert(one.drop_last() =~= Seq::empty());
    assert(trimmed_pieces(one.drop_last()) =~= Seq::empty());
    assert(trimmed_pieces(one) =~= seq![piece]);
    assert(tokens(s) =~= seq![token(piece)]);
}

proof fn lemma_no_piece(gap: Seq<char>)
    requires
        blank(gap),
    ensures
        tokens(gap) == Seq::<Token>::empty(),
{
    let none = Seq::<char>::empty();
    lemma_blank_has_no_comma(gap);
    law_split_divides_at_each_separator(gap, ',', none);
    law_trim_removes_surrounding_whitespace(gap, none, none);
    assert(gap + none + none =~= gap);
    let one = seq![gap];
    assert(one.drop_last() =~= Seq::empty());
    assert(trimmed_pieces(one.drop_last()) =~= Seq::empty());
    assert(trimmed_pieces(one) =~= Seq::empty());
    assert(tokens(gap) =~= Seq::empty());
}

// ---------------------------------------------------------------------------------------------
// Single options
// ---------------------------------------------------------------------------------------------
proof fn lemma_nothing()
    ensures
        options_of(Seq::empty()) == nothing_declared(),
        first_fault(Seq::empty()) is None,
{
    assert(options_of(Seq::empty()) =~= nothing_declared());
}

/// Whitespace declares nothing, and the whitespace around an option does not matter.
pub proof fn law_whitespace_does_not_matter(
    before: Seq<char>,
    piece: Seq<char>,
    after: Seq<char>,
)
    requires
        blank(before),
        blank(after),
        an_option(piece),
    ensures
        read_options(before) == Ok::<Options, Fault>(nothing_declared()),
        read_options(before + piece + after) == read_options(piece),
{
    let none = Seq::<char>::empty();
    lemma_no_piece(before);
    lemma_nothing();
    lemma_one_piece(before, piece, after);
    lemma_one_piece(none, piece, none);
    assert(none + piece + none =~= piece);
}

proof fn lemma_one_option(piece: Seq<char>)
    requires
        an_option(piece),
    ensures
        read_options(piece) == match token_fault(token(piece)) {
            Some(m) => Err::<Options, Fault>(Fault::Other(m)),
            None => Ok::<Options, Fault>(with_token(nothing_declared(), token(piece))),
        },
{
    let none = Seq::<char>::empty();
    lemma_one_piece(none, piece, none);
    assert(none + piece + none =~= piece);
    let t = token(piece);
    let ts = seq![t];
    assert(Seq::<Token>::empty().push(t) =~= ts);
    lemma_nothing();
    lemma_options_of_push(Seq::empty(), t);
    lemma_flags_of(ts);
}

proof fn lemma_flags_of(ts: Seq<Token>)
    ensures
        has_kind(ts, OptionKind::Hard) <==> options_of(ts).hard == Some(true),
        has_kind(ts, OptionKind::Soft) <==> options_of(ts).soft == Some(true),
{
    assert(options_of(ts).hard == flag(has_kind(ts, OptionKind::Hard)));
    assert(options_of(ts).soft == flag(has_kind(ts, OptionKind::Soft)));
}

proof fn lemma_plain_key_alone(key: Seq<char>)
    requires
        plain_key(key),
    ensures
        an_option(key),
        token(key) == (Token { key, value: None }),
{
    law_token_divides_at_the_first_equals_sign(key, Seq::empty());
}

/// `hard`, `soft` and `_netdev` are flags: alone each of them sets itself and nothing else.
pub proof fn law_flags_are_set_by_their_name()
    ensures
        read_options("hard"@) == Ok::<Options, Fault>(
            Options { hard: Some(true), ..nothing_declared() },
        ),
        read_options("soft"@) == Ok::<Options, Fault>(
            Options { soft: Some(true), ..nothing_declared() },
        ),
        read_options("_netdev"@) == Ok::<Options, Fault>(
            Options { netdev: true, ..nothing_declared() },
        ),
{
    lemma_keys();
    lemma_plain_key_alone("hard"@);
    lemma_one_option("hard"@);
    lemma_plain_key_alone("soft"@);
    lemma_one_option("soft"@);
    lemma_plain_key_alone("_netdev"@);
    lemma_one_option("_netdev"@);
}

/// A flag with a value, even an empty one, is refused.
pub proof fn law_flags_take_no_value(key: Seq<char>, value: Seq<char>)
    requires
        key == "hard"@ || key == "soft"@ || key == "_netdev"@,
        an_option(key + "="@ + value),
    ensures
        read_options(key + "="@ + value) == Err::<Options, Fault>(
            Fault::Other("nfs option `"@ + key + "` takes no value"@),
        ),
{
    lemma_keys();
    law_token_divides_at_the_first_equals_sign(key, value);
    lemma_one_option(key + "="@ + value);
}

/// A setting without a value is refused.
pub proof fn law_settings_require_a_value(key: Seq<char>)
    requires
        key == "vers"@ || key == "nfsvers"@ || key == "timeo"@ || key == "retrans"@ || key
            == "actimeo"@ || key == "rsize"@ || key == "wsize"@,
    ensures
        read_options(key) == Err::<Options, Fault>(
            Fault::Other("nfs option `"@ + key + "` requires a value"@),
        ),
{
    reveal_strlit("nfsvers");
    lemma_keys();
    if key == "nfsvers"@ {
        assert(key[0] == 'n' && key.last() == 's' && key.len() == 7);
        assert(plain_key(key));
    }
    lemma_plain_key_alone(key);
    lemma_one_option(key);
}

/// `vers` and `nfsvers` name the protocol version, which is one of five; every other text is
/// refused.
pub proof fn law_versions(key: Seq<char>, v: Seq<char>)
    requires
        key == "vers"@ || key == "nfsvers"@,
        an_option(key + "="@ + v),
    ensures
        read_options(key + "="@ + v) == if seq!["3"@, "4"@, "4.0"@, "4.1"@, "4.2"@].contains(v) {
            Ok::<Options, Fault>(Options { vers: Some(v), ..nothing_declared() })
        } else {
            Err::<Options, Fault>(
                Fault::Other(
                    "nfs option `vers="@ + v
                        + "` is not a supported version (expected one of [\"3\", \"4\", \"4.0\", \"4.1\", \"4.2\"])"@,
                ),
            )
        },
{
    let five = seq!["3"@, "4"@, "4.0"@, "4.1"@, "4.2"@];
    assert(five[0] == "3"@ && five[1] == "4"@ && five[2] == "4.0"@ && five[3] == "4.1"@ && five[4]
        == "4.2"@);
    reveal_strlit("nfsvers");
    lemma_keys();
    if key == "nfsvers"@ {
        assert(!key.contains('='));
    }
    law_token_divides_at_the_first_equals_sign(key, v);
    lemma_one_option(key + "="@ + v);
}

/// The numeric settings: a value that is no number is refused, and so is a number out of range.
/// `timeo` goes from 1 to 36000, `retrans` to 100, `actimeo` to 86400, and the transfer sizes go
/// from 4096 to 16777216. A number in range sets its own setting and nothing else.
pub proof fn law_numeric_settings(key: Seq<char>, v: Seq<char>)
    requires
        key == "timeo"@ || key == "retrans"@ || key == "actimeo"@ || key == "rsize"@ || key
            == "wsize"@,
        an_option(key + "="@ + v),
    ensures
        match read_u32(v) {
            None => read_options(key + "="@ + v) == Err::<Options, Fault>(
                Fault::Other("nfs option `"@ + key + "` is not a number: `"@ + v + "`"@),
            ),
            Some(n) => {
                let shown = "nfs option `"@ + key + "="@ + decimal(n as nat);
                let none = nothing_declared();
                if key == "timeo"@ {
                    read_options(key + "="@ + v) == if 1 <= n <= 36000 {
                        Ok::<Options, Fault>(Options { timeo: Some(n), ..none })
                    } else {
                        Err(Fault::Other(shown + "` out of range (1..=36000 deciseconds)"@))
                    }
                } else if key == "retrans"@ {
                    read_options(key + "="@ + v) == if n <= 100 {
                        Ok::<Options, Fault>(Options { retrans: Some(n), ..none })
                    } else {
                        Err(Fault::Other(shown + "` out of range (0..=100)"@))
                    }
                } else if key == "actimeo"@ {
                    read_options(key + "="@ + v) == if n <= 86400 {
                        Ok::<Options, Fault>(Options { actimeo: Some(n), ..none })
                    } else {
                        Err(Fault::Other(shown + "` out of range (0..=86400 seconds)"@))
                    }
                } else if 4096 <= n <= 16777216 {
                    read_options(key + "="@ + v) == Ok::<Options, Fault>(
                        if key == "rsize"@ {
                            Options { rsize: Some(n), ..none }
                        } else {
                            Options { wsize: Some(n), ..none }
                        },
                    )
                } else {
                    read_options(key + "="@ + v) == Err::<Options, Fault>(
                        Fault::Other(shown + "` out of range (4096..=16777216 bytes)"@),
                    )
                }
            },
        },
{
    lemma_keys();
    law_token_divides_at_the_first_equals_sign(key, v);
    lemma_one_option(key + "="@ + v);
    lemma_prefixes(key);
}

proof fn lemma_prefixes(key: Seq<char>)
    ensures
        key == "timeo"@ ==> "nfs option `"@ + key + "="@ == "nfs option `timeo="@,
        key == "retrans"@ ==> "nfs option `"@ + key + "="@ == "nfs option `retrans="@,
        key == "actimeo"@ ==> "nfs option `"@ + key + "="@ == "nfs option `actimeo="@,
{
    reveal_strlit("nfs option `");
    reveal_strlit("=");
    reveal_strlit("timeo");
    reveal_strlit("retrans");
    reveal_strlit("actimeo");
    reveal_strlit("nfs option `timeo=");
    reveal_strlit("nfs option `retrans=");
    reveal_strlit("nfs option `actimeo=");
    if key == "timeo"@ {
        assert("nfs option `"@ + key + "="@ =~= "nfs option `timeo="@);
    }
    if key == "retrans"@ {
        assert("nfs option `"@ + key + "="@ =~= "nfs option `retrans="@);
    }
    if key == "actimeo"@ {
        assert("nfs option `"@ + key + "="@ =~= "nfs option `actimeo="@);
    }
}

/// An option with any other key is kept as it is written, with or without a value, and says
/// nothing else.
pub proof fn law_other_options_are_kept(key: Seq<char>, value: Option<Seq<char>>)
    requires
        !key.contains('='),
        an_option(
            match value {
                Some(v) => key + "="@ + v,
                None => key,
            },
        ),
        !seq![
            "vers"@, "nfsvers"@, "hard"@, "soft"@, "timeo"@, "retrans"@, "actimeo"@, "rsize"@,
            "wsize"@, "_netdev"@,
        ].contains(key),
    ensures
        ({
            let piece = match value {
                Some(v) => key + "="@ + v,
                None => key,
            };
            read_options(piece) == Ok::<Options, Fault>(
                Options { extra: seq![piece], ..nothing_declared() },
            )
        }),
{
    let typed = seq![
        "vers"@, "nfsvers"@, "hard"@, "soft"@, "timeo"@, "retrans"@, "actimeo"@, "rsize"@,
        "wsize"@, "_netdev"@,
    ];
    assert(typed[0] == "vers"@ && typed[1] == "nfsvers"@ && typed[2] == "hard"@ && typed[3]
        == "soft"@ && typed[4] == "timeo"@ && typed[5] == "retrans"@ && typed[6] == "actimeo"@
        && typed[7] == "rsize"@ && typed[8] == "wsize"@ && typed[9] == "_netdev"@);
    let piece = match value {
        Some(v) => key + "="@ + v,
        None => key,
    };
    law_token_divides_at_the_first_equals_sign(
        key,
        match value {
            Some(v) => v,
            None => Seq::empty(),
        },
    );
    assert(kind_of(key) == OptionKind::Other);
    lemma_one_option(piece);
    assert(Seq::<Seq<char>>::empty().push(piece) =~= seq![piece]);
}

// ---------------------------------------------------------------------------------------------
// Several options
// ---------------------------------------------------------------------------------------------
/// The later of two settings, where there is one.
pub open spec fn later<T>(first: Option<T>, second: Option<T>) -> Option<T> {
    if second is Some {
        second
    } else {
        first
    }
}

/// What two option strings say together: of each setting the later one, every flag, and the other
/// options of both.
pub open spec fn combined(x: Options, y: Options) -> Options {
    Options {
        vers: later(x.vers, y.vers),
        hard: later(x.hard, y.hard),
        soft: later(x.soft, y.soft),
        timeo: later(x.timeo, y.timeo),
        retrans: later(x.retrans, y.retrans),
        actimeo: later(x.actimeo, y.actimeo),
        rsize: later(x.rsize, y.rsize),
        wsize: later(x.wsize, y.wsize),
        netdev: x.netdev || y.netdev,
        extra: x.extra + y.extra,
    }
}

proof fn lemma_combined_token(x: Options, y: Options, t: Token)
    requires
        token_fault(t) is None,
    ensures
        combined(x, with_token(y, t)) == with_token(combined(x, y), t),
{
    let kind = kind_of(t.key);
    if kind == OptionKind::Other {
        assert(x.extra + y.extra.push(token_text(t)) =~= (x.extra + y.extra).push(token_text(t)));
    }
    if kind == OptionKind::Timeo || kind == OptionKind::Retrans || kind == OptionKind::Actimeo
        || kind == OptionKind::Rsize || kind == OptionKind::Wsize {
        assert(number_of(t) is Some);
    }
    if kind == OptionKind::Vers {
        assert(t.value is Some);
    }
    assert(combined(x, with_token(y, t)) =~= with_token(combined(x, y), t));
}

proof fn lemma_combined(s: Seq<Token>, t: Seq<Token>)
    ensures
        first_fault(s + t) == match first_fault(s) {
            Some(m) => Some(m),
            None => first_fault(t),
        },
        first_fault(t) is None ==> options_of(s + t) == combined(options_of(s), options_of(t)),
    decreases t.len(),
{
    if t.len() == 0 {
        assert(s + t =~= s);
        assert(t =~= Seq::empty());
        lemma_nothing();
        assert(combined(options_of(s), nothing_declared()) =~= options_of(s));
    } else {
        let before = t.drop_last();
        let last = t.last();
        assert(before.push(last) =~= t);
        assert((s + before).push(last) =~= s + t);
        lemma_combined(s, before);
        lemma_options_of_push(before, last);
        lemma_options_of_push(s + before, last);
        if first_fault(t) is None {
            lemma_combined_token(options_of(s), options_of(before), last);
        }
    }
}

/// Two option strings with a comma between them say what both say together. Where just one of them
/// is refused, so is the whole, for the same reason; where both are, for the reason of one of them;
/// and `hard` in one of them excludes `soft` in the other.
pub proof fn law_option_strings_combine(a: Seq<char>, b: Seq<char>)
    ensures
        ({
            let whole = read_options(a + seq![','] + b);
            match (read_options(a), read_options(b)) {
                (Ok(x), Ok(y)) => whole == if (x.hard == Some(true) && y.soft == Some(true)) || (
                x.soft == Some(true) && y.hard == Some(true)) {
                    Err::<Options, Fault>(
                        Fault::Other("nfs options `hard` and `soft` are mutually exclusive"@),
                    )
                } else {
                    Ok(combined(x, y))
                },
                (Ok(_), Err(f)) => whole == Err::<Options, Fault>(f),
                (Err(f), Ok(_)) => whole == Err::<Options, Fault>(f),
                (Err(f), Err(g)) => whole == Err::<Options, Fault>(f) || whole == Err::<
                    Options,
                    Fault,
                >(g),
            }
        }),
{
    let s = tokens(a);
    let t = tokens(b);
    lemma_split_append(a, ',', b);
    lemma_trimmed_pieces_append(split(a, ','), split(b, ','));
    assert(tokens(a + seq![','] + b) =~= s + t);
    lemma_combined(s, t);
    lemma_flags_of(s);
    lemma_flags_of(t);
    lemma_flags_of(s + t);
    lemma_flag_values(s);
    lemma_flag_values(t);
}

proof fn lemma_flag_values(ts: Seq<Token>)
    ensures
        options_of(ts).hard is Some ==> options_of(ts).hard == Some(true),
        options_of(ts).soft is Some ==> options_of(ts).soft == Some(true),
{
    assert(options_of(ts).hard == flag(has_kind(ts, OptionKind::Hard)));
    assert(options_of(ts).soft == flag(has_kind(ts, OptionKind::Soft)));
}

/// An option that is refused alone is refused in front of whatever follows, for the same reason.
pub proof fn law_first_faulty_option_decides(piece: Seq<char>, rest: Seq<char>, fault: Fault)
    requires
        an_option(piece),
        read_options(piece) == Err::<Options, Fault>(fault),
    ensures
        read_options(piece + seq![','] + rest) == Err::<Options, Fault>(fault),
{
    let none = Seq::<char>::empty();
    lemma_one_piece(none, piece, none);
    assert(none + piece + none =~= piece);
    lemma_one_option(piece);
    let s = tokens(piece);
    let t = tokens(rest);
    lemma_split_append(piece, ',', rest);
    lemma_trimmed_pieces_append(split(piece, ','), split(rest, ','));
    assert(tokens(piece + seq![','] + rest) =~= s + t);
    lemma_combined(s, t);
    assert(Seq::<Token>::empty().push(token(piece)) =~= s);
    lemma_nothing();
    lemma_options_of_push(Seq::empty(), token(piece));
}

// ---------------------------------------------------------------------------------------------
// The floor
// ---------------------------------------------------------------------------------------------
/// An option with this name is among `parts`: the name alone, or the name and a value.
pub open spec fn named(parts: Seq<Seq<char>>, key: Seq<char>) -> bool {
    exists|i: int| 0 <= i < parts.len() && names(#[trigger] parts[i], key)
}

/// The name alone, or the name and a value.
pub open spec fn names(part: Seq<char>, key: Seq<char>) -> bool {
    part == key || exists|v: Seq<char>| part == #[trigger] (key + "="@ + v)
}

proof fn lemma_names(part: Seq<char>, key: Seq<char>)
    requires
        !key.contains('='),
    ensures
        names(part, key) <==> token(part).key == key,
{
    law_token_divides_at_the_first_equals_sign(key, Seq::empty());
    if exists|v: Seq<char>| part == #[trigger] (key + "="@ + v) {
        let v = choose|v: Seq<char>| part == #[trigger] (key + "="@ + v);
        law_token_divides_at_the_first_equals_sign(key, v);
    }
    if token(part).key == key {
        lemma_token_text(part);
        if let Some(v) = token(part).value {
            assert(part == key + "="@ + v);
        }
    }
}

proof fn lemma_named(parts: Seq<Seq<char>>, key: Seq<char>)
    requires
        !key.contains('='),
    ensures
        named(parts, key) <==> has_key(parts, key),
{
    if named(parts, key) {
        let i = choose|i: int| 0 <= i < parts.len() && names(#[trigger] parts[i], key);
        lemma_names(parts[i], key);
        assert(token(parts[i]).key == key);
    }
    if has_key(parts, key) {
        let i = choose|i: int| 0 <= i < parts.len() && token(#[trigger] parts[i]).key == key;
        lemma_names(parts[i], key);
        assert(names(parts[i], key));
    }
}

/// The one option where it is wanted, and none otherwise.
pub open spec fn only_if(wanted: bool, option: Seq<char>) -> Seq<Seq<char>> {
    if wanted {
        seq![option]
    } else {
        Seq::empty()
    }
}

/// The floor leaves a list with the option `hard` alone. Any other list keeps its options and gets
/// behind them `soft`, `softreval`, `timeo=50` and `retrans=2`, in this order, each unless an
/// option of that name is there.
pub proof fn law_floor_adds_what_is_not_named(parts: Seq<Seq<char>>)
    ensures
        parts.contains("hard"@) ==> floored(parts) == parts,
        !parts.contains("hard"@) ==> floored(parts) == parts + only_if(
            !named(parts, "soft"@),
            "soft"@,
        ) + only_if(!named(parts, "softreval"@), "softreval"@) + only_if(
            !named(parts, "timeo"@),
            "timeo=50"@,
        ) + only_if(!named(parts, "retrans"@), "retrans=2"@),
{
    lemma_keys();
    lemma_named(parts, "soft"@);
    lemma_named(parts, "softreval"@);
    lemma_named(parts, "timeo"@);
    lemma_named(parts, "retrans"@);
    if !parts.contains("hard"@) {
        lemma_floored(parts);
    }
}

// ---------------------------------------------------------------------------------------------
// Rendering
// ---------------------------------------------------------------------------------------------
/// The option that a value is written as, behind its name and an equals sign.
pub open spec fn written(name: Seq<char>, value: Option<Seq<char>>) -> Seq<Seq<char>> {
    match value {
        Some(v) => seq![name + v],
        None => Seq::empty(),
    }
}

/// A number in decimal digits.
pub open spec fn in_digits(n: Option<u32>) -> Option<Seq<char>> {
    match n {
        Some(n) => Some(decimal(n as nat)),
        None => None,
    }
}

/// The value, or another one where there is none.
pub open spec fn or_else(value: Option<u32>, other: u32) -> Option<u32> {
    if value is Some {
        value
    } else {
        Some(other)
    }
}

/// The options that a declared string is rendered as, one by one: the version, `hard` or `soft`,
/// `timeo`, `retrans`, `actimeo`, `rsize`, `wsize`, `_netdev`, and the other options in the order
/// in which they were declared. With `hard` nothing comes in; otherwise `timeo` is 50 and `retrans`
/// is 2 unless declared, and `softreval` comes last unless an option of that name was declared.
pub proof fn law_rendered_options_one_by_one(raw: Seq<char>)
    requires
        read_options(raw) is Ok,
    ensures
        ({
            let o = read_options(raw)->Ok_0;
            let hard = o.hard == Some(true);
            split(render(o), ',') == written("vers="@, o.vers) + only_if(hard, "hard"@) + only_if(
                !hard,
                "soft"@,
            ) + written(
                "timeo="@,
                in_digits(
                    if hard {
                        o.timeo
                    } else {
                        or_else(o.timeo, 50)
                    },
                ),
            ) + written(
                "retrans="@,
                in_digits(
                    if hard {
                        o.retrans
                    } else {
                        or_else(o.retrans, 2)
                    },
                ),
            ) + written("actimeo="@, in_digits(o.actimeo)) + written(
                "rsize="@,
                in_digits(o.rsize),
            ) + written("wsize="@, in_digits(o.wsize)) + only_if(o.netdev, "_netdev"@) + o.extra
                + only_if(!hard && !named(o.extra, "softreval"@), "softreval"@)
        }),
{
    let o = read_options(raw)->Ok_0;
    let s = resilient(o);
    let hard = o.hard == Some(true);
    law_read_is_well_typed(raw);
    lemma_rendered_clean(o);
    lemma_keys();
    lemma_named(o.extra, "softreval"@);
    lemma_written();
    let more = only_if(!hard && !named(o.extra, "softreval"@), "softreval"@);
    assert(s.extra =~= o.extra + more);
    let a = text_part("vers"@, s.vers);
    let b = flag_part("hard"@, s.hard == Some(true));
    let c = flag_part("soft"@, s.soft == Some(true));
    let d = number_part("timeo"@, s.timeo);
    let e = number_part("retrans"@, s.retrans);
    let f = number_part("actimeo"@, s.actimeo);
    let g = number_part("rsize"@, s.rsize);
    let h = number_part("wsize"@, s.wsize);
    let i = flag_part("_netdev"@, s.netdev);
    assert(a == written("vers="@, o.vers));
    assert(b == only_if(hard, "hard"@));
    assert(c == only_if(!hard, "soft"@));
    assert(d == written("timeo="@, in_digits(s.timeo)));
    assert(e == written("retrans="@, in_digits(s.retrans)));
    assert(f == written("actimeo="@, in_digits(o.actimeo)));
    assert(g == written("rsize="@, in_digits(o.rsize)));
    assert(h == written("wsize="@, in_digits(o.wsize)));
    assert(i == only_if(o.netdev, "_netdev"@));
    let front = a + b + c + d + e + f + g + h + i;
    assert(front + (o.extra + more) =~= front + o.extra + more);
}

proof fn lemma_written()
    ensures
        forall|v: Seq<char>| #[trigger] setting("vers"@, v) == "vers="@ + v,
        forall|v: Seq<char>| #[trigger] setting("timeo"@, v) == "timeo="@ + v,
        forall|v: Seq<char>| #[trigger] setting("retrans"@, v) == "retrans="@ + v,
        forall|v: Seq<char>| #[trigger] setting("actimeo"@, v) == "actimeo="@ + v,
        forall|v: Seq<char>| #[trigger] setting("rsize"@, v) == "rsize="@ + v,
        forall|v: Seq<char>| #[trigger] setting("wsize"@, v) == "wsize="@ + v,
{
    reveal_strlit("=");
    reveal_strlit("vers");
    reveal_strlit("vers=");
    reveal_strlit("timeo");
    reveal_strlit("timeo=");
    reveal_strlit("retrans");
    reveal_strlit("retrans=");
    reveal_strlit("actimeo");
    reveal_strlit("actimeo=");
    reveal_strlit("rsize");
    reveal_strlit("rsize=");
    reveal_strlit("wsize");
    reveal_strlit("wsize=");
    assert("vers"@ + "="@ =~= "vers="@);
    assert("timeo"@ + "="@ =~= "timeo="@);
    assert("retrans"@ + "="@ =~= "retrans="@);
    assert("actimeo"@ + "="@ =~= "actimeo="@);
    assert("rsize"@ + "="@ =~= "rsize="@);
    assert("wsize"@ + "="@ =~= "wsize="@);
}

/// What is rendered reads back as it was declared: the version, `hard`, `actimeo`, the transfer
/// sizes and `_netdev` are the same, and declared timeouts and retries too. Without `hard` the
/// mount is soft, with a timeout of 50 and two retries unless declared otherwise, and the other
/// options are the declared ones, with `softreval` behind them unless an option of that name is
/// among them.
pub proof fn law_declared_options_survive_rendering(raw: Seq<char>)
    requires
        read_options(raw) is Ok,
    ensures
        ({
            let o = read_options(raw)->Ok_0;
            let hard = o.hard == Some(true);
            read_options(render(o)) matches Ok(r) && {
                &&& r.vers == o.vers
                &&& r.hard == o.hard
                &&& r.actimeo == o.actimeo
                &&& r.rsize == o.rsize
                &&& r.wsize == o.wsize
                &&& r.netdev == o.netdev
                &&& hard ==> r == o
                &&& !hard ==> r.soft == Some(true)
                &&& !hard ==> r.timeo == or_else(o.timeo, 50)
                &&& !hard ==> r.retrans == or_else(o.retrans, 2)
                &&& r.extra == o.extra + only_if(
                    !hard && !named(o.extra, "softreval"@),
                    "softreval"@,
                )
            }
        }),
{
    let o = read_options(raw)->Ok_0;
    let hard = o.hard == Some(true);
    law_read_is_well_typed(raw);
    law_render_reads_back(o);
    lemma_keys();
    lemma_named(o.extra, "softreval"@);
    assert(resilient(o).extra =~= o.extra + only_if(
        !hard && !named(o.extra, "softreval"@),
        "softreval"@,
    ));
}

/// The place of an option in the rendered string, told by its name.
#[verifier::opaque]
pub open spec fn rank(part: Seq<char>) -> int {
    if names(part, "vers"@) || names(part, "nfsvers"@) {
        0
    } else if names(part, "hard"@) {
        1
    } else if names(part, "soft"@) {
        2
    } else if names(part, "timeo"@) {
        3
    } else if names(part, "retrans"@) {
        4
    } else if names(part, "actimeo"@) {
        5
    } else if names(part, "rsize"@) {
        6
    } else if names(part, "wsize"@) {
        7
    } else if names(part, "_netdev"@) {
        8
    } else {
        9
    }
}

/// The kind of the options at this place.
spec fn kind_at(r: int) -> OptionKind {
    if r == 0 {
        OptionKind::Vers
    } else if r == 1 {
        OptionKind::Hard
    } else if r == 2 {
        OptionKind::Soft
    } else if r == 3 {
        OptionKind::Timeo
    } else if r == 4 {
        OptionKind::Retrans
    } else if r == 5 {
        OptionKind::Actimeo
    } else if r == 6 {
        OptionKind::Rsize
    } else if r == 7 {
        OptionKind::Wsize
    } else if r == 8 {
        OptionKind::Netdev
    } else {
        OptionKind::Other
    }
}

proof fn lemma_rank(part: Seq<char>)
    ensures
        kind_of(token(part).key) == kind_at(rank(part)),
        0 <= rank(part) <= 9,
{
    reveal(rank);
    reveal_strlit("nfsvers");
    lemma_keys();
    assert(!"nfsvers"@.contains('='));
    lemma_names(part, "vers"@);
    lemma_names(part, "nfsvers"@);
    lemma_names(part, "hard"@);
    lemma_names(part, "soft"@);
    lemma_names(part, "timeo"@);
    lemma_names(part, "retrans"@);
    lemma_names(part, "actimeo"@);
    lemma_names(part, "rsize"@);
    lemma_names(part, "wsize"@);
    lemma_names(part, "_netdev"@);
}

/// Sorted by place, up to the place `r`.
spec fn ranked(parts: Seq<Seq<char>>, r: int) -> bool {
    &&& forall|i: int| 0 <= i < parts.len() ==> rank(#[trigger] parts[i]) <= r
    &&& forall|i: int, j: int|
        0 <= i < j < parts.len() ==> rank(#[trigger] parts[i]) <= rank(#[trigger] parts[j])
}

proof fn lemma_ranked(a: Seq<Seq<char>>, parts: Seq<Seq<char>>, r: int)
    requires
        0 <= r <= 9,
        ranked(a, r - 1),
    ensures
        ranked(a + of_kind(parts, kind_at(r)), r),
        uniform(of_kind(parts, kind_at(r)), kind_at(r)),
{
    let b = of_kind(parts, kind_at(r));
    lemma_filter_subset(parts, |part: Seq<char>| kind_of(token(part).key) == kind_at(r));
    assert forall|i: int| 0 <= i < b.len() implies rank(#[trigger] b[i]) == r && kind_of(
        token(b[i]).key,
    ) == kind_at(r) by {
        lemma_rank(b[i]);
    }
    let all = a + b;
    assert forall|i: int| 0 <= i < all.len() implies rank(#[trigger] all[i]) <= r by {
        if i < a.len() {
            assert(all[i] == a[i]);
        } else {
            assert(all[i] == b[i - a.len()]);
        }
    }
    assert forall|i: int, j: int| 0 <= i < j < all.len() implies rank(#[trigger] all[i]) <= rank(
        #[trigger] all[j],
    ) by {
        if j < a.len() {
            assert(all[i] == a[i] && all[j] == a[j]);
        } else {
            assert(all[j] == b[j - a.len()]);
        }
    }
}

proof fn lemma_in_order_ranked(parts: Seq<Seq<char>>)
    ensures
        ranked(in_order(parts), 9),
        forall|kind: OptionKind| #[trigger] of_kind(in_order(parts), kind) == of_kind(parts, kind),
{
    let none = Seq::<Seq<char>>::empty();
    let p0 = of_kind(parts, OptionKind::Vers);
    lemma_ranked(none, parts, 0);
    assert(none + p0 =~= p0);
    let p1 = p0 + of_kind(parts, OptionKind::Hard);
    lemma_ranked(p0, parts, 1);
    let p2 = p1 + of_kind(parts, OptionKind::Soft);
    lemma_ranked(p1, parts, 2);
    let p3 = p2 + of_kind(parts, OptionKind::Timeo);
    lemma_ranked(p2, parts, 3);
    let p4 = p3 + of_kind(parts, OptionKind::Retrans);
    lemma_ranked(p3, parts, 4);
    let p5 = p4 + of_kind(parts, OptionKind::Actimeo);
    lemma_ranked(p4, parts, 5);
    let p6 = p5 + of_kind(parts, OptionKind::Rsize);
    lemma_ranked(p5, parts, 6);
    let p7 = p6 + of_kind(parts, OptionKind::Wsize);
    lemma_ranked(p6, parts, 7);
    let p8 = p7 + of_kind(parts, OptionKind::Netdev);
    lemma_ranked(p7, parts, 8);
    lemma_ranked(p8, parts, 9);
    assert forall|kind: OptionKind| #[trigger] of_kind(in_order(parts), kind) == of_kind(
        parts,
        kind,
    ) by {
        lemma_of_kind_sorted(
            of_kind(parts, OptionKind::Vers),
            of_kind(parts, OptionKind::Hard),
            of_kind(parts, OptionKind::Soft),
            of_kind(parts, OptionKind::Timeo),
            of_kind(parts, OptionKind::Retrans),
            of_kind(parts, OptionKind::Actimeo),
            of_kind(parts, OptionKind::Rsize),
            of_kind(parts, OptionKind::Wsize),
            of_kind(parts, OptionKind::Netdev),
            of_kind(parts, OptionKind::Other),
            kind,
        );
    }
}

proof fn lemma_filter_same(
    parts: Seq<Seq<char>>,
    p: spec_fn(Seq<char>) -> bool,
    q: spec_fn(Seq<char>) -> bool,
)
    requires
        forall|part: Seq<char>| #[trigger] p(part) == q(part),
    ensures
        parts.filter(p) == parts.filter(q),
    decreases parts.len(),
{
    reveal(Seq::filter);
    if parts.len() > 0 {
        lemma_filter_same(parts.drop_last(), p, q);
        assert(p(parts.last()) == q(parts.last()));
    }
}

proof fn lemma_rank_is_kind(parts: Seq<Seq<char>>, r: int)
    requires
        0 <= r <= 9,
    ensures
        parts.filter(|part: Seq<char>| rank(part) == r) == of_kind(parts, kind_at(r)),
{
    let p = |part: Seq<char>| rank(part) == r;
    let q = |part: Seq<char>| kind_of(token(part).key) == kind_at(r);
    assert forall|part: Seq<char>| #[trigger] p(part) == q(part) by {
        lemma_rank(part);
    }
    lemma_filter_same(parts, p, q);
}

/// Ordering sorts options by their place and leaves those of one place as they stand.
pub proof fn law_options_are_sorted_by_their_place(parts: Seq<Seq<char>>, r: int)
    requires
        0 <= r <= 9,
    ensures
        forall|i: int, j: int|
            0 <= i < j < in_order(parts).len() ==> rank(#[trigger] in_order(parts)[i]) <= rank(
                #[trigger] in_order(parts)[j],
            ),
        in_order(parts).filter(|part: Seq<char>| rank(part) == r) == parts.filter(
            |part: Seq<char>| rank(part) == r,
        ),
        forall|part: Seq<char>| 0 <= #[trigger] rank(part) <= 9,
{
    lemma_in_order_ranked(parts);
    lemma_same_place(in_order(parts), parts, r);
    assert forall|part: Seq<char>| 0 <= #[trigger] rank(part) <= 9 by {
        lemma_rank(part);
    }
}

proof fn lemma_same_place(ordered: Seq<Seq<char>>, parts: Seq<Seq<char>>, r: int)
    requires
        0 <= r <= 9,
        forall|kind: OptionKind| #[trigger] of_kind(ordered, kind) == of_kind(parts, kind),
    ensures
        ordered.filter(|part: Seq<char>| rank(part) == r) == parts.filter(
            |part: Seq<char>| rank(part) == r,
        ),
{
    lemma_rank_is_kind(ordered, r);
    lemma_rank_is_kind(parts, r);
    assert(of_kind(ordered, kind_at(r)) == of_kind(parts, kind_at(r)));
}

/// Whatever the options are, even such as no string declares: they are written out one by one and
/// joined, the pieces between the commas get the floor, and these are joined in their order.
pub proof fn law_any_options_are_rendered_this_way(o: Options)
    ensures
        ({
            let all = written("vers="@, o.vers) + only_if(o.hard == Some(true), "hard"@) + only_if(
                o.soft == Some(true),
                "soft"@,
            ) + written("timeo="@, in_digits(o.timeo)) + written("retrans="@, in_digits(o.retrans))
                + written("actimeo="@, in_digits(o.actimeo)) + written(
                "rsize="@,
                in_digits(o.rsize),
            ) + written("wsize="@, in_digits(o.wsize)) + only_if(o.netdev, "_netdev"@) + o.extra;
            let base = join(all, ","@);
            let pieces = if base.len() == 0 {
                Seq::empty()
            } else {
                split(base, ',')
            };
            render(o) == join(in_order(floored(pieces)), ","@)
        }),
{
    lemma_written();
    assert(text_part("vers"@, o.vers) == written("vers="@, o.vers));
    assert(flag_part("hard"@, o.hard == Some(true)) == only_if(o.hard == Some(true), "hard"@));
    assert(flag_part("soft"@, o.soft == Some(true)) == only_if(o.soft == Some(true), "soft"@));
    assert(number_part("timeo"@, o.timeo) == written("timeo="@, in_digits(o.timeo)));
    assert(number_part("retrans"@, o.retrans) == written("retrans="@, in_digits(o.retrans)));
    assert(number_part("actimeo"@, o.actimeo) == written("actimeo="@, in_digits(o.actimeo)));
    assert(number_part("rsize"@, o.rsize) == written("rsize="@, in_digits(o.rsize)));
    assert(number_part("wsize"@, o.wsize) == written("wsize="@, in_digits(o.wsize)));
    assert(flag_part("_netdev"@, o.netdev) == only_if(o.netdev, "_netdev"@));
}

} // verus!
