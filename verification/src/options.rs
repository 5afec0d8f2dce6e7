//! The nfs mount option grammar: a raw comma-separated option string is read into typed
//! [`NfsOptions`], and typed options are rendered into the canonical string, resilient defaults
//! included.
use vstd::prelude::*;
use vstd::string::*;

use crate::error::{Fault, StorageError, maybe, outcome};
use crate::filtering::lemma_filter_next;
use crate::number::{decimal, parse_u32, read_u32, u32_text};
use crate::option_laws::law_rendered_in_canonical_order;
use crate::text::{
    contains_string, join, joined, lemma_views_push, same, split, split_at_each, split_at_first,
    split_once, trim, trimmed, views,
};

verus! {

/// Transfer sizes (`rsize`, `wsize`) run from a page to 16 MiB.
pub const MIN_XSIZE: u32 = 4096;

pub const MAX_XSIZE: u32 = 16_777_216;

/// `timeo` is in tenths of a second; an hour is the most that makes sense.
pub const MAX_TIMEO_DECISECONDS: u32 = 36_000;

pub const MAX_RETRANS: u32 = 100;

pub const MAX_ACTIMEO_SECONDS: u32 = 86_400;

// ---------------------------------------------------------------------------------------------
// Tokens
// ---------------------------------------------------------------------------------------------
/// One `key` or `key=value` of an option string.
#[derive(Debug, PartialEq, Eq)]
pub struct OptionToken<'a> {
    pub key: &'a str,
    pub value: Option<&'a str>,
}

/// The mathematical content of an [`OptionToken`].
pub struct Token {
    pub key: Seq<char>,
    pub value: Option<Seq<char>>,
}

impl<'a> View for OptionToken<'a> {
    type V = Token;

    open spec fn view(&self) -> Token {
        Token { key: self.key@, value: maybe(self.value) }
    }
}

/// A piece of an option string, divided at its first `=`.
pub open spec fn token(piece: Seq<char>) -> Token {
    match split_once(piece, '=') {
        Some((key, value)) => Token { key, value: Some(value) },
        None => Token { key: piece, value: None },
    }
}

/// A token as it is written.
pub open spec fn token_text(t: Token) -> Seq<char> {
    match t.value {
        Some(value) => t.key + "="@ + value,
        None => t.key,
    }
}

/// The pieces, each without surrounding whitespace, those that are then empty left out.
pub open spec fn trimmed_pieces(pieces: Seq<Seq<char>>) -> Seq<Seq<char>>
    decreases pieces.len(),
{
    if pieces.len() == 0 {
        Seq::empty()
    } else {
        let before = trimmed_pieces(pieces.drop_last());
        let piece = trim(pieces.last());
        if piece.len() == 0 {
            before
        } else {
            before.push(piece)
        }
    }
}

/// The tokens of a comma-separated option string, in order.
pub open spec fn tokens(raw: Seq<char>) -> Seq<Token> {
    trimmed_pieces(split(raw, ',')).map_values(|piece: Seq<char>| token(piece))
}

/// The tokens of a comma-separated option string, in order. Blank pieces are skipped.
pub fn parse_option_string<'a>(raw: &'a str) -> (r: Vec<OptionToken<'a>>)
    ensures
        views(r@) == tokens(raw@),
{
    let pieces: Vec<&'a str> = split_at_each(raw, ',');
    let ghost texts = views(pieces@);
    let ghost to_token = |piece: Seq<char>| token(piece);
    let mut out: Vec<OptionToken<'a>> = Vec::new();
    let mut i: usize = 0;
    while i < pieces.len()
        invariant
            i <= pieces@.len(),
            texts == views(pieces@),
            to_token == (|piece: Seq<char>| token(piece)),
            views(out@) =~= trimmed_pieces(texts.take(i as int)).map_values(to_token),
        decreases pieces@.len() - i,
    {
        let piece: &'a str = trimmed(pieces[i]);
        proof {
            assert(texts.take(i + 1).drop_last() =~= texts.take(i as int));
            assert(texts.take(i + 1).last() == pieces@[i as int]@);
        }
        if !piece.is_empty() {
            let t: OptionToken<'a> = match split_at_first(piece, '=') {
                Some((key, value)) => OptionToken { key, value: Some(value) },
                None => OptionToken { key: piece, value: None },
            };
            proof {
                lemma_views_push(out@, t);
            }
            out.push(t);
        }
        i = i + 1;
    }
    proof {
        assert(texts.take(i as int) =~= texts);
    }
    out
}

// ---------------------------------------------------------------------------------------------
// Reading
// ---------------------------------------------------------------------------------------------
/// Which option a key names. Keys that are not typed are `Other`.
#[derive(Debug, Clone, Copy, PartialEq, Eq, Structural)]
pub enum OptionKind {
    Vers,
    Hard,
    Soft,
    Timeo,
    Retrans,
    Actimeo,
    Rsize,
    Wsize,
    Netdev,
    Other,
}

pub open spec fn kind_of(key: Seq<char>) -> OptionKind {
    if key == "vers"@ || key == "nfsvers"@ {
        OptionKind::Vers
    } else if key == "hard"@ {
        OptionKind::Hard
    } else if key == "soft"@ {
        OptionKind::Soft
    } else if key == "timeo"@ {
        OptionKind::Timeo
    } else if key == "retrans"@ {
        OptionKind::Retrans
    } else if key == "actimeo"@ {
        OptionKind::Actimeo
    } else if key == "rsize"@ {
        OptionKind::Rsize
    } else if key == "wsize"@ {
        OptionKind::Wsize
    } else if key == "_netdev"@ {
        OptionKind::Netdev
    } else {
        OptionKind::Other
    }
}

/// The protocol versions accepted for `vers=`.
pub open spec fn valid_vers(v: Seq<char>) -> bool {
    v == "3"@ || v == "4"@ || v == "4.0"@ || v == "4.1"@ || v == "4.2"@
}

pub open spec fn bad_vers(v: Seq<char>) -> Seq<char> {
    "nfs option `vers="@ + v
        + "` is not a supported version (expected one of [\"3\", \"4\", \"4.0\", \"4.1\", \"4.2\"])"@
}

pub open spec fn not_a_number(key: Seq<char>, v: Seq<char>) -> Seq<char> {
    "nfs option `"@ + key + "` is not a number: `"@ + v + "`"@
}

pub open spec fn takes_no_value(key: Seq<char>) -> Seq<char> {
    "nfs option `"@ + key + "` takes no value"@
}

pub open spec fn requires_value(key: Seq<char>) -> Seq<char> {
    "nfs option `"@ + key + "` requires a value"@
}

pub open spec fn bad_timeo(n: u32) -> Seq<char> {
    "nfs option `timeo="@ + decimal(n as nat) + "` out of range (1..=36000 deciseconds)"@
}

pub open spec fn bad_retrans(n: u32) -> Seq<char> {
    "nfs option `retrans="@ + decimal(n as nat) + "` out of range (0..=100)"@
}

pub open spec fn bad_actimeo(n: u32) -> Seq<char> {
    "nfs option `actimeo="@ + decimal(n as nat) + "` out of range (0..=86400 seconds)"@
}

pub open spec fn bad_xsize(key: Seq<char>, n: u32) -> Seq<char> {
    "nfs option `"@ + key + "="@ + decimal(n as nat) + "` out of range (4096..=16777216 bytes)"@
}

pub open spec fn hard_and_soft() -> Seq<char> {
    "nfs options `hard` and `soft` are mutually exclusive"@
}

/// The bounds of a numeric option.
pub open spec fn in_bounds(kind: OptionKind, n: u32) -> bool {
    match kind {
        OptionKind::Timeo => 1 <= n <= MAX_TIMEO_DECISECONDS,
        OptionKind::Retrans => n <= MAX_RETRANS,
        OptionKind::Actimeo => n <= MAX_ACTIMEO_SECONDS,
        OptionKind::Rsize => MIN_XSIZE <= n <= MAX_XSIZE,
        OptionKind::Wsize => MIN_XSIZE <= n <= MAX_XSIZE,
        _ => true,
    }
}

pub open spec fn bounds_message(kind: OptionKind, key: Seq<char>, n: u32) -> Seq<char> {
    match kind {
        OptionKind::Timeo => bad_timeo(n),
        OptionKind::Retrans => bad_retrans(n),
        OptionKind::Actimeo => bad_actimeo(n),
        _ => bad_xsize(key, n),
    }
}

/// What is wrong with the value of a numeric option, if anything.
pub open spec fn number_fault(key: Seq<char>, v: Seq<char>) -> Option<Seq<char>> {
    match read_u32(v) {
        None => Some(not_a_number(key, v)),
        Some(n) => if in_bounds(kind_of(key), n) {
            None
        } else {
            Some(bounds_message(kind_of(key), key, n))
        },
    }
}

/// What is wrong with a token, if anything.
pub open spec fn token_fault(t: Token) -> Option<Seq<char>> {
    match (kind_of(t.key), t.value) {
        (OptionKind::Other, _) => None,
        (OptionKind::Hard | OptionKind::Soft | OptionKind::Netdev, None) => None,
        (OptionKind::Hard | OptionKind::Soft | OptionKind::Netdev, Some(_)) => Some(
            takes_no_value(t.key),
        ),
        (_, None) => Some(requires_value(t.key)),
        (OptionKind::Vers, Some(v)) => if valid_vers(v) {
            None
        } else {
            Some(bad_vers(v))
        },
        (_, Some(v)) => number_fault(t.key, v),
    }
}

/// What is wrong with the first faulty token, if there is one.
pub open spec fn first_fault(ts: Seq<Token>) -> Option<Seq<char>>
    decreases ts.len(),
{
    if ts.len() == 0 {
        None
    } else {
        match first_fault(ts.drop_last()) {
            Some(m) => Some(m),
            None => token_fault(ts.last()),
        }
    }
}

/// A token of this kind is among `ts`.
pub open spec fn has_kind(ts: Seq<Token>, kind: OptionKind) -> bool {
    exists|i: int| 0 <= i < ts.len() && kind_of(#[trigger] ts[i].key) == kind
}

/// The value that the last token of this kind carries.
pub open spec fn last_value(ts: Seq<Token>, kind: OptionKind) -> Option<Seq<char>>
    decreases ts.len(),
{
    if ts.len() == 0 {
        None
    } else if kind_of(ts.last().key) == kind {
        ts.last().value
    } else {
        last_value(ts.drop_last(), kind)
    }
}

/// The number that the last token of this kind carries.
pub open spec fn last_number(ts: Seq<Token>, kind: OptionKind) -> Option<u32> {
    match last_value(ts, kind) {
        Some(v) => read_u32(v),
        None => None,
    }
}

/// The tokens that are not typed, as written and in order.
pub open spec fn untyped(ts: Seq<Token>) -> Seq<Seq<char>>
    decreases ts.len(),
{
    if ts.len() == 0 {
        Seq::empty()
    } else if kind_of(ts.last().key) == OptionKind::Other {
        untyped(ts.drop_last()).push(token_text(ts.last()))
    } else {
        untyped(ts.drop_last())
    }
}

pub open spec fn flag(set: bool) -> Option<bool> {
    if set {
        Some(true)
    } else {
        None
    }
}

/// Typed nfs options. `extra` holds the options that are not typed, as written and in order.
#[derive(Debug, Clone, PartialEq)]
pub struct NfsOptions {
    pub vers: Option<String>,
    pub hard: Option<bool>,
    pub soft: Option<bool>,
    pub timeo: Option<u32>,
    pub retrans: Option<u32>,
    pub actimeo: Option<u32>,
    pub rsize: Option<u32>,
    pub wsize: Option<u32>,
    pub netdev: bool,
    pub extra: Vec<String>,
}

/// The mathematical content of [`NfsOptions`].
#[verifier::ext_equal]
pub struct Options {
    pub vers: Option<Seq<char>>,
    pub hard: Option<bool>,
    pub soft: Option<bool>,
    pub timeo: Option<u32>,
    pub retrans: Option<u32>,
    pub actimeo: Option<u32>,
    pub rsize: Option<u32>,
    pub wsize: Option<u32>,
    pub netdev: bool,
    pub extra: Seq<Seq<char>>,
}

impl View for NfsOptions {
    type V = Options;

    open spec fn view(&self) -> Options {
        Options {
            vers: maybe(self.vers),
            hard: self.hard,
            soft: self.soft,
            timeo: self.timeo,
            retrans: self.retrans,
            actimeo: self.actimeo,
            rsize: self.rsize,
            wsize: self.wsize,
            netdev: self.netdev,
            extra: views(self.extra@),
        }
    }
}

/// What a sequence of faultless tokens says: flags are set by appearing, the last value of a
/// setting counts, and what is not typed is kept.
pub open spec fn options_of(ts: Seq<Token>) -> Options {
    Options {
        vers: last_value(ts, OptionKind::Vers),
        hard: flag(has_kind(ts, OptionKind::Hard)),
        soft: flag(has_kind(ts, OptionKind::Soft)),
        timeo: last_number(ts, OptionKind::Timeo),
        retrans: last_number(ts, OptionKind::Retrans),
        actimeo: last_number(ts, OptionKind::Actimeo),
        rsize: last_number(ts, OptionKind::Rsize),
        wsize: last_number(ts, OptionKind::Wsize),
        netdev: has_kind(ts, OptionKind::Netdev),
        extra: untyped(ts),
    }
}

/// What tokens read as: the options that they say, or what is wrong with them. The first faulty
/// token decides; `hard` beside `soft` is refused only where no token is faulty.
pub open spec fn tokens_read(ts: Seq<Token>) -> Result<Options, Fault> {
    match first_fault(ts) {
        Some(m) => Err(Fault::Other(m)),
        None => if has_kind(ts, OptionKind::Hard) && has_kind(ts, OptionKind::Soft) {
            Err(Fault::Other(hard_and_soft()))
        } else {
            Ok(options_of(ts))
        },
    }
}

/// What an option string reads as.
pub open spec fn read_options(raw: Seq<char>) -> Result<Options, Fault> {
    tokens_read(tokens(raw))
}

/// The options with one more token.
pub open spec fn with_token(o: Options, t: Token) -> Options {
    match kind_of(t.key) {
        OptionKind::Vers => Options { vers: t.value, ..o },
        OptionKind::Hard => Options { hard: Some(true), ..o },
        OptionKind::Soft => Options { soft: Some(true), ..o },
        OptionKind::Timeo => Options { timeo: number_of(t), ..o },
        OptionKind::Retrans => Options { retrans: number_of(t), ..o },
        OptionKind::Actimeo => Options { actimeo: number_of(t), ..o },
        OptionKind::Rsize => Options { rsize: number_of(t), ..o },
        OptionKind::Wsize => Options { wsize: number_of(t), ..o },
        OptionKind::Netdev => Options { netdev: true, ..o },
        OptionKind::Other => Options { extra: o.extra.push(token_text(t)), ..o },
    }
}

/// The number that a token carries.
pub open spec fn number_of(t: Token) -> Option<u32> {
    match t.value {
        Some(v) => read_u32(v),
        None => None,
    }
}

proof fn lemma_has_kind_push(ts: Seq<Token>, t: Token, kind: OptionKind)
    ensures
        has_kind(ts.push(t), kind) == (has_kind(ts, kind) || kind_of(t.key) == kind),
{
    let all = ts.push(t);
    if has_kind(ts, kind) {
        let i = choose|i: int| 0 <= i < ts.len() && kind_of(#[trigger] ts[i].key) == kind;
        assert(all[i] == ts[i]);
    }
    if kind_of(t.key) == kind {
        assert(all[ts.len() as int] == t);
    }
    if has_kind(all, kind) {
        let i = choose|i: int| 0 <= i < all.len() && kind_of(#[trigger] all[i].key) == kind;
        if i < ts.len() {
            assert(ts[i] == all[i]);
        }
    }
}

/// One more token changes the options by what that token says.
pub proof fn lemma_options_of_push(ts: Seq<Token>, t: Token)
    ensures
        options_of(ts.push(t)) == with_token(options_of(ts), t),
        first_fault(ts.push(t)) == match first_fault(ts) {
            Some(m) => Some(m),
            None => token_fault(t),
        },
{
    assert(ts.push(t).drop_last() =~= ts);
    lemma_has_kind_push(ts, t, OptionKind::Hard);
    lemma_has_kind_push(ts, t, OptionKind::Soft);
    lemma_has_kind_push(ts, t, OptionKind::Netdev);
    assert(options_of(ts.push(t)) =~= with_token(options_of(ts), t));
}

fn option_kind(key: &str) -> (r: OptionKind)
    ensures
        r == kind_of(key@),
{
    if same(key, "vers") || same(key, "nfsvers") {
        OptionKind::Vers
    } else if same(key, "hard") {
        OptionKind::Hard
    } else if same(key, "soft") {
        OptionKind::Soft
    } else if same(key, "timeo") {
        OptionKind::Timeo
    } else if same(key, "retrans") {
        OptionKind::Retrans
    } else if same(key, "actimeo") {
        OptionKind::Actimeo
    } else if same(key, "rsize") {
        OptionKind::Rsize
    } else if same(key, "wsize") {
        OptionKind::Wsize
    } else if same(key, "_netdev") {
        OptionKind::Netdev
    } else {
        OptionKind::Other
    }
}

/// Reads the number of the option `key`.
pub fn parse_num(key: &str, value: &str) -> (r: Result<u32, StorageError>)
    ensures
        match read_u32(value@) {
            Some(n) => r == Ok::<u32, StorageError>(n),
            None => r is Err && r->Err_0@ == Fault::Other(not_a_number(key@, value@)),
        },
{
    match parse_u32(value) {
        Some(n) => Ok(n),
        None => {
            let mut m: String = "nfs option `".to_owned();
            m.append(key);
            m.append("` is not a number: `");
            m.append(value);
            m.append("`");
            Err(StorageError::Other(m))
        },
    }
}

/// Bounds-checks a transfer size (`rsize` or `wsize`).
pub fn check_xsize(key: &str, n: u32) -> (r: Result<u32, StorageError>)
    ensures
        if MIN_XSIZE <= n <= MAX_XSIZE {
            r == Ok::<u32, StorageError>(n)
        } else {
            r is Err && r->Err_0@ == Fault::Other(bad_xsize(key@, n))
        },
{
    if n < MIN_XSIZE || n > MAX_XSIZE {
        let mut m: String = "nfs option `".to_owned();
        m.append(key);
        m.append("=");
        m.append(u32_text(n).as_str());
        m.append("` out of range (4096..=16777216 bytes)");
        return Err(StorageError::Other(m));
    }
    Ok(n)
}

/// Reads and bounds-checks the value of a numeric option.
fn read_setting(key: &str, value: &str) -> (r: Result<u32, StorageError>)
    requires
        kind_of(key@) == OptionKind::Timeo || kind_of(key@) == OptionKind::Retrans || kind_of(key@)
            == OptionKind::Actimeo || kind_of(key@) == OptionKind::Rsize || kind_of(key@)
            == OptionKind::Wsize,
    ensures
        match number_fault(key@, value@) {
            Some(m) => r is Err && r->Err_0@ == Fault::Other(m),
            None => r is Ok && Some(r->Ok_0) == read_u32(value@),
        },
{
    let n: u32 = match parse_num(key, value) {
        Ok(n) => n,
        Err(e) => {
            return Err(e);
        },
    };
    match option_kind(key) {
        OptionKind::Timeo => {
            if n == 0 || n > MAX_TIMEO_DECISECONDS {
                let mut m: String = "nfs option `timeo=".to_owned();
                m.append(u32_text(n).as_str());
                m.append("` out of range (1..=36000 deciseconds)");
                return Err(StorageError::Other(m));
            }
            Ok(n)
        },
        OptionKind::Retrans => {
            if n > MAX_RETRANS {
                let mut m: String = "nfs option `retrans=".to_owned();
                m.append(u32_text(n).as_str());
                m.append("` out of range (0..=100)");
                return Err(StorageError::Other(m));
            }
            Ok(n)
        },
        OptionKind::Actimeo => {
            if n > MAX_ACTIMEO_SECONDS {
                let mut m: String = "nfs option `actimeo=".to_owned();
                m.append(u32_text(n).as_str());
                m.append("` out of range (0..=86400 seconds)");
                return Err(StorageError::Other(m));
            }
            Ok(n)
        },
        _ => check_xsize(key, n),
    }
}

fn is_valid_vers(v: &str) -> (r: bool)
    ensures
        r == valid_vers(v@),
{
    same(v, "3") || same(v, "4") || same(v, "4.0") || same(v, "4.1") || same(v, "4.2")
}

/// Takes one more token into the options.
fn accept_token(o: &mut NfsOptions, t: &OptionToken) -> (r: Result<(), StorageError>)
    ensures
        match token_fault(t@) {
            Some(m) => r is Err && r->Err_0@ == Fault::Other(m),
            None => r is Ok && final(o)@ == with_token(old(o)@, t@),
        },
{
    let kind: OptionKind = option_kind(t.key);
    match (kind, t.value) {
        (OptionKind::Vers, Some(v)) => {
            if !is_valid_vers(v) {
                let mut m: String = "nfs option `vers=".to_owned();
                m.append(v);
                m.append(
                    "` is not a supported version (expected one of [\"3\", \"4\", \"4.0\", \"4.1\", \"4.2\"])",
                );
                return Err(StorageError::Other(m));
            }
            o.vers = Some(v.to_owned());
        },
        (OptionKind::Hard, None) => {
            o.hard = Some(true);
        },
        (OptionKind::Soft, None) => {
            o.soft = Some(true);
        },
        (OptionKind::Netdev, None) => {
            o.netdev = true;
        },
        (OptionKind::Timeo, Some(v)) => match read_setting(t.key, v) {
            Ok(n) => {
                o.timeo = Some(n);
            },
            Err(e) => {
                return Err(e);
            },
        },
        (OptionKind::Retrans, Some(v)) => match read_setting(t.key, v) {
            Ok(n) => {
                o.retrans = Some(n);
            },
            Err(e) => {
                return Err(e);
            },
        },
        (OptionKind::Actimeo, Some(v)) => match read_setting(t.key, v) {
            Ok(n) => {
                o.actimeo = Some(n);
            },
            Err(e) => {
                return Err(e);
            },
        },
        (OptionKind::Rsize, Some(v)) => match read_setting(t.key, v) {
            Ok(n) => {
                o.rsize = Some(n);
            },
            Err(e) => {
                return Err(e);
            },
        },
        (OptionKind::Wsize, Some(v)) => match read_setting(t.key, v) {
            Ok(n) => {
                o.wsize = Some(n);
            },
            Err(e) => {
                return Err(e);
            },
        },
        (OptionKind::Hard | OptionKind::Soft | OptionKind::Netdev, Some(_)) => {
            let mut m: String = "nfs option `".to_owned();
            m.append(t.key);
            m.append("` takes no value");
            return Err(StorageError::Other(m));
        },
        (OptionKind::Other, value) => {
            let mut text: String = t.key.to_owned();
            match value {
                Some(v) => {
                    text.append("=");
                    text.append(v);
                },
                None => {},
            }
            let ghost before = o.extra@;
            proof {
                lemma_views_push(before, text);
            }
            o.extra.push(text);
        },
        (_, None) => {
            let mut m: String = "nfs option `".to_owned();
            m.append(t.key);
            m.append("` requires a value");
            return Err(StorageError::Other(m));
        },
    }
    Ok(())
}

/// Reads a raw comma-separated option string. `None` reads as the empty string.
pub fn parse_nfs_options(raw: Option<&str>) -> (r: Result<NfsOptions, StorageError>)
    ensures
        outcome(r) == read_options(
            match raw {
                Some(s) => s@,
                None => Seq::empty(),
            },
        ),
{
    let text: &str = match raw {
        Some(s) => s,
        None => "",
    };
    proof {
        reveal_strlit("");
        assert(raw is None ==> text@ =~= Seq::empty());
    }
    let ts: Vec<OptionToken> = parse_option_string(text);
    options_from_tokens(&ts)
}

/// Reads the tokens of an option string.
pub fn options_from_tokens(ts: &Vec<OptionToken>) -> (r: Result<NfsOptions, StorageError>)
    ensures
        outcome(r) == tokens_read(views(ts@)),
{
    let mut o: NfsOptions = NfsOptions {
        vers: None,
        hard: None,
        soft: None,
        timeo: None,
        retrans: None,
        actimeo: None,
        rsize: None,
        wsize: None,
        netdev: false,
        extra: Vec::new(),
    };
    let ghost all = views(ts@);
    proof {
        assert(o@ =~= options_of(all.take(0)));
    }
    let mut i: usize = 0;
    while i < ts.len()
        invariant
            i <= ts@.len(),
            all == views(ts@),
            o@ == options_of(all.take(i as int)),
            first_fault(all.take(i as int)) is None,
        decreases ts@.len() - i,
    {
        proof {
            assert(all.take(i + 1) =~= all.take(i as int).push(ts@[i as int]@));
            lemma_options_of_push(all.take(i as int), ts@[i as int]@);
        }
        match accept_token(&mut o, &ts[i]) {
            Ok(()) => {},
            Err(e) => {
                proof {
                    lemma_first_fault_prefix(all, i + 1);
                }
                return Err(e);
            },
        }
        i = i + 1;
    }
    proof {
        assert(all.take(i as int) =~= all);
    }
    if o.hard == Some(true) && o.soft == Some(true) {
        return Err(
            StorageError::Other("nfs options `hard` and `soft` are mutually exclusive".to_owned()),
        );
    }
    Ok(o)
}

/// A fault in the leading tokens is the first fault of them all.
proof fn lemma_first_fault_prefix(ts: Seq<Token>, n: int)
    requires
        0 <= n <= ts.len(),
        first_fault(ts.take(n)) is Some,
    ensures
        first_fault(ts) == first_fault(ts.take(n)),
    decreases ts.len(),
{
    if n == ts.len() {
        assert(ts.take(n) =~= ts);
    } else {
        assert(ts.drop_last().take(n) =~= ts.take(n));
        lemma_first_fault_prefix(ts.drop_last(), n);
    }
}

// ---------------------------------------------------------------------------------------------
// Rendering
// ---------------------------------------------------------------------------------------------
/// `key=value`.
pub open spec fn setting(key: Seq<char>, value: Seq<char>) -> Seq<char> {
    key + "="@ + value
}

/// The option `key=value`, where there is a value.
pub open spec fn text_part(key: Seq<char>, value: Option<Seq<char>>) -> Seq<Seq<char>> {
    match value {
        Some(v) => seq![setting(key, v)],
        None => Seq::empty(),
    }
}

/// The option `key=number`, where there is a number.
pub open spec fn number_part(key: Seq<char>, n: Option<u32>) -> Seq<Seq<char>> {
    match n {
        Some(n) => seq![setting(key, decimal(n as nat))],
        None => Seq::empty(),
    }
}

/// The option `key`, where it is set.
pub open spec fn flag_part(key: Seq<char>, set: bool) -> Seq<Seq<char>> {
    if set {
        seq![key]
    } else {
        Seq::empty()
    }
}

/// The declared options in canonical order.
pub open spec fn declared_parts(o: Options) -> Seq<Seq<char>> {
    text_part("vers"@, o.vers) + flag_part("hard"@, o.hard == Some(true)) + flag_part(
        "soft"@,
        o.soft == Some(true),
    ) + number_part("timeo"@, o.timeo) + number_part("retrans"@, o.retrans) + number_part(
        "actimeo"@,
        o.actimeo,
    ) + number_part("rsize"@, o.rsize) + number_part("wsize"@, o.wsize) + flag_part(
        "_netdev"@,
        o.netdev,
    ) + o.extra
}

/// The options of a joined string, as separate texts.
pub open spec fn listed(joined: Seq<char>) -> Seq<Seq<char>> {
    if joined.len() == 0 {
        Seq::empty()
    } else {
        split(joined, ',')
    }
}

/// An option with this key is among `parts`.
pub open spec fn has_key(parts: Seq<Seq<char>>, key: Seq<char>) -> bool {
    exists|i: int| 0 <= i < parts.len() && token(#[trigger] parts[i]).key == key
}

/// `parts` with `option` at the end, unless an option with this key is there already.
pub open spec fn with_default(parts: Seq<Seq<char>>, key: Seq<char>, option: Seq<char>) -> Seq<
    Seq<char>,
> {
    if has_key(parts, key) {
        parts
    } else {
        parts.push(option)
    }
}

/// The safety floor: without an explicit `hard`, the resilient defaults whose key is absent are
/// added. Only the option `hard` itself opts out; `hard=…`, which the grammar refuses, does not.
pub open spec fn floored(parts: Seq<Seq<char>>) -> Seq<Seq<char>> {
    if parts.contains("hard"@) {
        parts
    } else {
        with_default(
            with_default(
                with_default(with_default(parts, "soft"@, "soft"@), "softreval"@, "softreval"@),
                "timeo"@,
                "timeo=50"@,
            ),
            "retrans"@,
            "retrans=2"@,
        )
    }
}

/// The options of this kind, in order.
pub open spec fn of_kind(parts: Seq<Seq<char>>, kind: OptionKind) -> Seq<Seq<char>> {
    parts.filter(|part: Seq<char>| kind_of(token(part).key) == kind)
}

/// The options in canonical order: by kind, what is not typed last, and otherwise as they stand.
pub open spec fn in_order(parts: Seq<Seq<char>>) -> Seq<Seq<char>> {
    of_kind(parts, OptionKind::Vers) + of_kind(parts, OptionKind::Hard) + of_kind(
        parts,
        OptionKind::Soft,
    ) + of_kind(parts, OptionKind::Timeo) + of_kind(parts, OptionKind::Retrans) + of_kind(
        parts,
        OptionKind::Actimeo,
    ) + of_kind(parts, OptionKind::Rsize) + of_kind(parts, OptionKind::Wsize) + of_kind(
        parts,
        OptionKind::Netdev,
    ) + of_kind(parts, OptionKind::Other)
}

/// The rendered options, as separate texts: the declared ones with the floor, in canonical order.
pub open spec fn rendered_parts(o: Options) -> Seq<Seq<char>> {
    in_order(floored(listed(join(declared_parts(o), ","@))))
}

/// The canonical option string, safety floor included.
pub open spec fn render(o: Options) -> Seq<char> {
    join(rendered_parts(o), ","@)
}

/// A text that stands unchanged as one option of an option string.
pub open spec fn clean(piece: Seq<char>) -> bool {
    &&& piece.len() > 0
    &&& !piece.contains(',')
    &&& trim(piece) == piece
}

/// Options that some option string declares.
pub open spec fn well_typed(o: Options) -> bool {
    &&& o.vers matches Some(v) ==> valid_vers(v)
    &&& o.hard == None::<bool> || o.hard == Some(true)
    &&& o.soft == None::<bool> || o.soft == Some(true)
    &&& !(o.hard == Some(true) && o.soft == Some(true))
    &&& o.timeo matches Some(n) ==> in_bounds(OptionKind::Timeo, n)
    &&& o.retrans matches Some(n) ==> in_bounds(OptionKind::Retrans, n)
    &&& o.actimeo matches Some(n) ==> in_bounds(OptionKind::Actimeo, n)
    &&& o.rsize matches Some(n) ==> in_bounds(OptionKind::Rsize, n)
    &&& o.wsize matches Some(n) ==> in_bounds(OptionKind::Wsize, n)
    &&& forall|i: int|
        0 <= i < o.extra.len() ==> clean(#[trigger] o.extra[i]) && kind_of(token(o.extra[i]).key)
            == OptionKind::Other
}

/// The options with the resilient defaults: an explicit `hard` stays as it is; otherwise the
/// mount is `soft` and `softreval`, and times out fast unless it declares its own `timeo` and
/// `retrans`.
pub open spec fn resilient(o: Options) -> Options {
    if o.hard == Some(true) {
        o
    } else {
        Options {
            soft: Some(true),
            timeo: if o.timeo is Some {
                o.timeo
            } else {
                Some(50)
            },
            retrans: if o.retrans is Some {
                o.retrans
            } else {
                Some(2)
            },
            extra: if has_key(o.extra, "softreval"@) {
                o.extra
            } else {
                o.extra.push("softreval"@)
            },
            ..o
        }
    }
}

fn push_text(parts: &mut Vec<String>, key: &str, value: &Option<String>)
    ensures
        views(final(parts)@) == views(old(parts)@) + text_part(key@, maybe(*value)),
{
    match value {
        Some(v) => {
            let mut text: String = key.to_owned();
            text.append("=");
            text.append(v.as_str());
            proof {
                lemma_views_push(parts@, text);
            }
            parts.push(text);
            proof {
                assert(views(parts@) =~= views(old(parts)@) + text_part(key@, maybe(*value)));
            }
        },
        None => {
            proof {
                assert(views(parts@) =~= views(old(parts)@) + text_part(key@, maybe(*value)));
            }
        },
    }
}

fn push_number(parts: &mut Vec<String>, key: &str, n: Option<u32>)
    ensures
        views(final(parts)@) == views(old(parts)@) + number_part(key@, n),
{
    match n {
        Some(n) => {
            let mut text: String = key.to_owned();
            text.append("=");
            text.append(u32_text(n).as_str());
            proof {
                lemma_views_push(parts@, text);
            }
            parts.push(text);
            proof {
                assert(views(parts@) =~= views(old(parts)@) + number_part(key@, Some(n)));
            }
        },
        None => {
            proof {
                assert(views(parts@) =~= views(old(parts)@) + number_part(key@, n));
            }
        },
    }
}

fn push_flag(parts: &mut Vec<String>, key: &str, set: bool)
    ensures
        views(final(parts)@) == views(old(parts)@) + flag_part(key@, set),
{
    if set {
        let text: String = key.to_owned();
        proof {
            lemma_views_push(parts@, text);
        }
        parts.push(text);
    }
    proof {
        assert(views(parts@) =~= views(old(parts)@) + flag_part(key@, set));
    }
}

fn push_all(parts: &mut Vec<String>, more: &Vec<String>)
    ensures
        views(final(parts)@) == views(old(parts)@) + views(more@),
{
    let mut i: usize = 0;
    proof {
        assert(views(parts@) =~= views(old(parts)@) + views(more@).take(0));
    }
    while i < more.len()
        invariant
            i <= more@.len(),
            views(parts@) == views(old(parts)@) + views(more@).take(i as int),
        decreases more@.len() - i,
    {
        let text: String = more[i].clone();
        proof {
            lemma_views_push(parts@, text);
        }
        parts.push(text);
        i = i + 1;
        proof {
            assert(views(parts@) =~= views(old(parts)@) + views(more@).take(i as int));
        }
    }
    proof {
        assert(views(more@).take(i as int) =~= views(more@));
    }
}

/// The key of an option.
fn part_key(part: &str) -> (r: &str)
    ensures
        r@ == token(part@).key,
{
    match split_at_first(part, '=') {
        Some((key, _)) => key,
        None => part,
    }
}

/// Appends the options of this kind.
fn push_kind(out: &mut Vec<String>, parts: &Vec<String>, kind: OptionKind)
    ensures
        views(final(out)@) == views(old(out)@) + of_kind(views(parts@), kind),
{
    let ghost before = views(out@);
    let ghost all = views(parts@);
    let ghost keep = |part: Seq<char>| kind_of(token(part).key) == kind;
    let mut i: usize = 0;
    proof {
        reveal(Seq::filter);
        assert(before + all.take(0).filter(keep) =~= before);
    }
    while i < parts.len()
        invariant
            i <= parts@.len(),
            all == views(parts@),
            keep == (|part: Seq<char>| kind_of(token(part).key) == kind),
            views(out@) =~= before + all.take(i as int).filter(keep),
        decreases parts@.len() - i,
    {
        proof {
            assert(all[i as int] == parts@[i as int]@);
            lemma_filter_next(all, keep, i as int);
        }
        if option_kind(part_key(parts[i].as_str())) == kind {
            let text: String = parts[i].clone();
            proof {
                lemma_views_push(out@, text);
            }
            out.push(text);
        }
        i = i + 1;
    }
    proof {
        assert(all.take(i as int) =~= all);
    }
}

/// The options in canonical order.
fn ordered(parts: &Vec<String>) -> (r: Vec<String>)
    ensures
        views(r@) == in_order(views(parts@)),
{
    let mut r: Vec<String> = Vec::new();
    push_kind(&mut r, parts, OptionKind::Vers);
    push_kind(&mut r, parts, OptionKind::Hard);
    push_kind(&mut r, parts, OptionKind::Soft);
    push_kind(&mut r, parts, OptionKind::Timeo);
    push_kind(&mut r, parts, OptionKind::Retrans);
    push_kind(&mut r, parts, OptionKind::Actimeo);
    push_kind(&mut r, parts, OptionKind::Rsize);
    push_kind(&mut r, parts, OptionKind::Wsize);
    push_kind(&mut r, parts, OptionKind::Netdev);
    push_kind(&mut r, parts, OptionKind::Other);
    proof {
        assert(views(r@) =~= in_order(views(parts@)));
    }
    r
}

/// Does an option with this key stand in the list?
fn contains_key(parts: &Vec<String>, key: &str) -> (r: bool)
    ensures
        r == has_key(views(parts@), key@),
{
    let mut i: usize = 0;
    while i < parts.len()
        invariant
            i <= parts@.len(),
            forall|j: int| 0 <= j < i ==> token(#[trigger] views(parts@)[j]).key != key@,
        decreases parts@.len() - i,
    {
        proof {
            assert(views(parts@)[i as int] == parts@[i as int]@);
        }
        if same(part_key(parts[i].as_str()), key) {
            return true;
        }
        i = i + 1;
    }
    false
}

fn push_default(parts: &mut Vec<String>, key: &str, option: &str)
    ensures
        views(final(parts)@) == with_default(views(old(parts)@), key@, option@),
{
    if !contains_key(parts, key) {
        let text: String = option.to_owned();
        proof {
            lemma_views_push(parts@, text);
        }
        parts.push(text);
    }
}

/// Applies the safety floor to a list of options: an explicit `hard` is left untouched; otherwise
/// `soft`, `softreval`, `timeo=50` and `retrans=2` are added where their key is absent. `hard` opts
/// out only as it is written there, without a value.
pub fn enforce_nfs_safe_options(parts: &mut Vec<String>)
    ensures
        views(final(parts)@) == floored(views(old(parts)@)),
{
    if contains_string(parts, "hard") {
        return ;
    }
    push_default(parts, "soft", "soft");
    push_default(parts, "softreval", "softreval");
    push_default(parts, "timeo", "timeo=50");
    push_default(parts, "retrans", "retrans=2");
}

/// Renders typed options into the canonical comma-joined option string, safety floor included.
///
/// A mount that declares neither `soft` nor `hard` would inherit the kernel's `hard`, which blocks
/// every process that touches it while the server is away; the floor makes it fail fast instead.
/// The floor comes first and the order after it, so that a rendered string renders to itself.
pub fn render_nfs_options(o: &NfsOptions) -> (r: String)
    ensures
        r@ == render(o@),
        well_typed(o@) ==> r@ == join(declared_parts(resilient(o@)), ","@),
{
    let mut declared: Vec<String> = Vec::new();
    push_text(&mut declared, "vers", &o.vers);
    push_flag(&mut declared, "hard", o.hard == Some(true));
    push_flag(&mut declared, "soft", o.soft == Some(true));
    push_number(&mut declared, "timeo", o.timeo);
    push_number(&mut declared, "retrans", o.retrans);
    push_number(&mut declared, "actimeo", o.actimeo);
    push_number(&mut declared, "rsize", o.rsize);
    push_number(&mut declared, "wsize", o.wsize);
    push_flag(&mut declared, "_netdev", o.netdev);
    push_all(&mut declared, &o.extra);
    proof {
        assert(views(declared@) =~= declared_parts(o@));
    }
    // The floor looks at single options, so the list is read back from the joined string.
    let base: String = joined(&declared, ",");
    let mut parts: Vec<String> = Vec::new();
    if !base.as_str().is_empty() {
        let pieces: Vec<&str> = split_at_each(base.as_str(), ',');
        let mut i: usize = 0;
        while i < pieces.len()
            invariant
                i <= pieces@.len(),
                views(parts@) == views(pieces@).take(i as int),
            decreases pieces@.len() - i,
        {
            let text: String = pieces[i].to_owned();
            proof {
                lemma_views_push(parts@, text);
            }
            parts.push(text);
            i = i + 1;
            proof {
                assert(views(parts@) =~= views(pieces@).take(i as int));
            }
        }
        proof {
            assert(views(pieces@).take(i as int) =~= views(pieces@));
        }
    }
    proof {
        assert(views(parts@) =~= listed(join(declared_parts(o@), ","@)));
    }
    enforce_nfs_safe_options(&mut parts);
    proof {
        if well_typed(o@) {
            law_rendered_in_canonical_order(o@);
        }
    }
    joined(&ordered(&parts), ",")
}

} // verus!
