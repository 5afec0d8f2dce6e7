//! Which texts are nfs sources, told by the parts that they are put together from.
use vstd::prelude::*;
use vstd::string::*;

use crate::error::Fault;
use crate::source::canonical_source;
use crate::text::is_space;
use crate::text_laws::{
    blank, law_split_once_divides_at_the_first_separator,
    law_trim_removes_surrounding_whitespace, tight,
};

verus! {

/// A host and an absolute export path with a colon between them are a source, with whatever
/// whitespace around each of them; its canonical form is the host, the colon and the path, without
/// the whitespace.
pub proof fn law_source_is_host_and_export(
    host: Seq<char>,
    export: Seq<char>,
    gaps: (Seq<char>, Seq<char>, Seq<char>, Seq<char>),
)
    requires
        host.len() > 0,
        tight(host),
        !host.contains(':'),
        export.len() > 0,
        tight(export),
        export[0] == '/',
        blank(gaps.0),
        blank(gaps.1),
        blank(gaps.2),
        blank(gaps.3),
    ensures
        canonical_source(
            gaps.0 + (host + gaps.1 + seq![':'] + (gaps.2 + export)) + gaps.3,
        ) == Ok::<Seq<char>, Fault>(host + seq![':'] + export),
{
    reveal_strlit(":");
    let none = Seq::<char>::empty();
    let a = host + gaps.1;
    let b = gaps.2 + export;
    let core = a + seq![':'] + b;
    assert(core[0] == host[0]);
    assert(core.last() == export.last());
    law_trim_removes_surrounding_whitespace(gaps.0, core, gaps.3);
    if a.contains(':') {
        let i = choose|i: int| 0 <= i < a.len() && a[i] == ':';
        if i < host.len() {
            assert(host[i] == ':');
        } else {
            assert(is_space(gaps.1[i - host.len()]));
        }
    }
    law_split_once_divides_at_the_first_separator(a, ':', b);
    law_trim_removes_surrounding_whitespace(none, host, gaps.1);
    assert(none + host + gaps.1 =~= a);
    law_trim_removes_surrounding_whitespace(gaps.2, export, none);
    assert(gaps.2 + export + none =~= b);
    assert(":"@ =~= seq![':']);
}

/// Whitespace alone is no source, nor is a text without a colon.
pub proof fn law_source_needs_a_colon(before: Seq<char>, core: Seq<char>, after: Seq<char>)
    requires
        blank(before),
        tight(core),
        !core.contains(':'),
        blank(after),
    ensures
        canonical_source(before + core + after) == Err::<Seq<char>, Fault>(
            Fault::Other(
                if core.len() == 0 {
                    "nfs source is empty"@
                } else {
                    "nfs source `"@ + core + "` is not `host:/export`"@
                },
            ),
        ),
{
    law_trim_removes_surrounding_whitespace(before, core, after);
    law_split_once_divides_at_the_first_separator(core, ':', Seq::empty());
}

/// A source that starts with its colon has no host.
pub proof fn law_source_needs_a_host(before: Seq<char>, rest: Seq<char>, after: Seq<char>)
    requires
        blank(before),
        tight(seq![':'] + rest),
        blank(after),
    ensures
        canonical_source(before + (seq![':'] + rest) + after) == Err::<Seq<char>, Fault>(
            Fault::Other("nfs source `"@ + (seq![':'] + rest) + "` has an empty host"@),
        ),
{
    let none = Seq::<char>::empty();
    let core = seq![':'] + rest;
    law_trim_removes_surrounding_whitespace(before, core, after);
    assert(core =~= none + seq![':'] + rest);
    law_split_once_divides_at_the_first_separator(none, ':', rest);
    law_trim_removes_surrounding_whitespace(none, none, none);
    assert(none + none + none =~= none);
}

/// A source whose export path does not start with a slash is refused.
pub proof fn law_source_needs_an_absolute_export(
    host: Seq<char>,
    export: Seq<char>,
    gaps: (Seq<char>, Seq<char>, Seq<char>, Seq<char>),
)
    requires
        host.len() > 0,
        tight(host),
        !host.contains(':'),
        tight(export),
        export.len() == 0 || export[0] != '/',
        blank(gaps.0),
        blank(gaps.1),
        blank(gaps.2),
        blank(gaps.3),
        export.len() == 0 ==> gaps.2.len() == 0,
    ensures
        ({
            let core = host + gaps.1 + seq![':'] + (gaps.2 + export);
            canonical_source(gaps.0 + core + gaps.3) == Err::<Seq<char>, Fault>(
                Fault::Other(
                    "nfs source `"@ + core + "` export path must be absolute (start with `/`)"@,
                ),
            )
        }),
{
    let none = Seq::<char>::empty();
    let a = host + gaps.1;
    let b = gaps.2 + export;
    let core = a + seq![':'] + b;
    assert(core[0] == host[0]);
    if export.len() > 0 {
        assert(core.last() == export.last());
    } else {
        assert(core.last() == ':');
    }
    law_trim_removes_surrounding_whitespace(gaps.0, core, gaps.3);
    if a.contains(':') {
        let i = choose|i: int| 0 <= i < a.len() && a[i] == ':';
        if i < host.len() {
            assert(host[i] == ':');
        } else {
            assert(is_space(gaps.1[i - host.len()]));
        }
    }
    law_split_once_divides_at_the_first_separator(a, ':', b);
    law_trim_removes_surrounding_whitespace(none, host, gaps.1);
    assert(none + host + gaps.1 =~= a);
    law_trim_removes_surrounding_whitespace(gaps.2, export, none);
    assert(gaps.2 + export + none =~= b);
}

} // verus!
