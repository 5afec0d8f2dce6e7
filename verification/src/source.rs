//! The `host:/export` form of an nfs source.
use vstd::prelude::*;
use vstd::string::*;

use crate::error::{Fault, StorageError, outcome};
use crate::text::{
    lemma_find_bounds, lemma_find_is, lemma_trim_ends, lemma_trim_id, split_at_first, split_once,
    starts_with_char, trim, trimmed,
};

verus! {

pub open spec fn empty_source() -> Seq<char> {
    "nfs source is empty"@
}

pub open spec fn not_host_export(s: Seq<char>) -> Seq<char> {
    "nfs source `"@ + s + "` is not `host:/export`"@
}

pub open spec fn empty_host(s: Seq<char>) -> Seq<char> {
    "nfs source `"@ + s + "` has an empty host"@
}

pub open spec fn relative_export(s: Seq<char>) -> Seq<char> {
    "nfs source `"@ + s + "` export path must be absolute (start with `/`)"@
}

/// The canonical form of a source: the host before the first `:` and the absolute export path
/// after it, each without surrounding whitespace.
pub open spec fn canonical_source(source: Seq<char>) -> Result<Seq<char>, Fault> {
    let s = trim(source);
    if s.len() == 0 {
        Err(Fault::Other(empty_source()))
    } else {
        match split_once(s, ':') {
            None => Err(Fault::Other(not_host_export(s))),
            Some((before, after)) => {
                let host = trim(before);
                let export = trim(after);
                if host.len() == 0 {
                    Err(Fault::Other(empty_host(s)))
                } else if export.len() == 0 || export[0] != '/' {
                    Err(Fault::Other(relative_export(s)))
                } else {
                    Ok(host + ":"@ + export)
                }
            },
        }
    }
}

fn source_error(s: &str, complaint: &str) -> (r: StorageError)
    ensures
        r@ == Fault::Other("nfs source `"@ + s@ + complaint@),
{
    let mut m: String = "nfs source `".to_owned();
    m.append(s);
    m.append(complaint);
    StorageError::Other(m)
}

/// Normalizes an nfs source into canonical `host:/export` form.
pub fn normalize_nfs_source(source: &str) -> (r: Result<String, StorageError>)
    ensures
        outcome(r) == canonical_source(source@),
{
    let s: &str = trimmed(source);
    if s.is_empty() {
        return Err(StorageError::Other("nfs source is empty".to_owned()));
    }
    match split_at_first(s, ':') {
        None => Err(source_error(s, "` is not `host:/export`")),
        Some((before, after)) => {
            let host: &str = trimmed(before);
            let export: &str = trimmed(after);
            if host.is_empty() {
                return Err(source_error(s, "` has an empty host"));
            }
            if !starts_with_char(export, '/') {
                return Err(
                    source_error(s, "` export path must be absolute (start with `/`)"),
                );
            }
            let mut r: String = host.to_owned();
            r.append(":");
            r.append(export);
            Ok(r)
        },
    }
}

/// A canonical source is its own canonical form.
pub proof fn law_canonical_source_is_kept(source: Seq<char>)
    requires
        canonical_source(source) is Ok,
    ensures
        canonical_source(canonical_source(source)->Ok_0) == canonical_source(source),
{
    reveal_strlit(":");
    let s = trim(source);
    let (before, after) = split_once(s, ':')->Some_0;
    let host = trim(before);
    let export = trim(after);
    let c = host + ":"@ + export;
    lemma_find_bounds(s, ':');
    lemma_trim_ends(before);
    lemma_trim_ends(after);
    assert(c[0] == host[0]);
    assert(c.last() == export.last());
    lemma_trim_id(c);
    let n = host.len() as int;
    assert forall|i: int| 0 <= i < n implies #[trigger] c[i] != ':' by {
        assert(c[i] == host[i]);
        assert(host.contains(host[i]));
        let j = choose|j: int| 0 <= j < before.len() && before[j] == host[i];
        assert(before[j] == s[j]);
    }
    assert(c[n] == ':');
    lemma_find_is(c, ':', n);
    assert(c.take(n) =~= host);
    assert(c.skip(n + 1) =~= export);
}

} // verus!
