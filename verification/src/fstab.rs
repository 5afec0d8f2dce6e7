//! The network mounts that `/etc/fstab` declares, and which of them are absent.
use vstd::prelude::*;
use vstd::seq_lib::*;
use vstd::string::*;
use vstd::utf8::*;

use crate::error::NfsError;
use crate::filtering::{lemma_filter_next, lemma_views_filter};
use crate::mounts::{
    Mount, MountRecord, is_network_fs, mounted_on,
    network_fs, not_text, path_under_watch, watched,
};
use crate::text::{
    gather, lemma_views_push, same, split, split_at_each, split_words, starts_with_char, trim,
    trimmed, utf8_text, views, words,
};

verus! {

/// A network filesystem declared in `/etc/fstab`. `automount` tells whether the entry is managed
/// by `x-systemd.automount`, whose failed unit has to be reset before a remount takes.
#[derive(Debug, PartialEq, Eq)]
pub struct FstabEntry {
    pub device: String,
    pub mountpoint: String,
    pub fstype: String,
    pub automount: bool,
}

/// The mathematical content of an [`FstabEntry`].
#[verifier::ext_equal]
pub struct FstabRecord {
    pub device: Seq<char>,
    pub mountpoint: Seq<char>,
    pub fstype: Seq<char>,
    pub automount: bool,
}

impl View for FstabEntry {
    type V = FstabRecord;

    open spec fn view(&self) -> FstabRecord {
        FstabRecord {
            device: self.device@,
            mountpoint: self.mountpoint@,
            fstype: self.fstype@,
            automount: self.automount,
        }
    }
}

impl Clone for FstabEntry {
    fn clone(&self) -> (r: Self)
        ensures
            r@ == self@,
    {
        FstabEntry {
            device: self.device.clone(),
            mountpoint: self.mountpoint.clone(),
            fstype: self.fstype.clone(),
            automount: self.automount,
        }
    }
}

/// The line holds an entry: it is neither blank nor a comment.
pub open spec fn is_entry(line: Seq<char>) -> bool {
    trim(line).len() > 0 && trim(line)[0] != '#'
}

/// What a line of fstab declares: device, mountpoint, filesystem type and options, if it is a
/// network filesystem.
pub open spec fn fstab_line(line: Seq<char>) -> Option<FstabRecord> {
    let w = words(trim(line));
    if is_entry(line) && w.len() >= 3 && network_fs(w[2]) {
        Some(
            FstabRecord {
                device: w[0],
                mountpoint: w[1],
                fstype: w[2],
                automount: w.len() >= 4 && split(w[3], ',').contains("x-systemd.automount"@),
            },
        )
    } else {
        None
    }
}

/// The network filesystems that an fstab text declares.
pub open spec fn declared_in(text: Seq<char>) -> Seq<FstabRecord> {
    gather(split(text, '\n'), |line: Seq<char>| fstab_line(line))
}

/// Is `x-systemd.automount` among the comma-separated options?
fn is_automount(options: &str) -> (r: bool)
    ensures
        r == split(options@, ',').contains("x-systemd.automount"@),
{
    let pieces: Vec<&str> = split_at_each(options, ',');
    let mut i: usize = 0;
    while i < pieces.len()
        invariant
            i <= pieces@.len(),
            views(pieces@) == split(options@, ','),
            forall|j: int| 0 <= j < i ==> #[trigger] views(pieces@)[j] != "x-systemd.automount"@,
        decreases pieces@.len() - i,
    {
        proof {
            assert(views(pieces@)[i as int] == pieces@[i as int]@);
        }
        if same(pieces[i], "x-systemd.automount") {
            return true;
        }
        i = i + 1;
    }
    false
}

/// Parses an fstab into its network-filesystem entries. Comments, blank lines and lines with
/// fewer than three fields are skipped.
pub fn parse_fstab(table: &[u8]) -> (r: Result<Vec<FstabEntry>, NfsError>)
    ensures
        match r {
            Ok(entries) => valid_utf8(table@) && views(entries@) == declared_in(
                decode_utf8(table@),
            ),
            Err(e) => !valid_utf8(table@) && e is Read && e->Read_0@ == not_text(),
        },
{
    let text: &str = match utf8_text(table) {
        Some(text) => text,
        None => {
            return Err(NfsError::Read("stream did not contain valid UTF-8".to_owned()));
        },
    };
    let lines: Vec<&str> = split_at_each(text, '\n');
    let ghost all = views(lines@);
    let ghost read = |line: Seq<char>| fstab_line(line);
    let mut out: Vec<FstabEntry> = Vec::new();
    let mut i: usize = 0;
    while i < lines.len()
        invariant
            i <= lines@.len(),
            all == views(lines@),
            read == (|line: Seq<char>| fstab_line(line)),
            views(out@) == gather(all.take(i as int), read),
        decreases lines@.len() - i,
    {
        let line: &str = trimmed(lines[i]);
        proof {
            assert(all.take(i + 1).drop_last() =~= all.take(i as int));
            assert(all.take(i + 1).last() == lines@[i as int]@);
        }
        if !line.is_empty() && !starts_with_char(line, '#') {
            let fields: Vec<&str> = split_words(line);
            proof {
                assert(fields@.len() == words(line@).len());
                assert(forall|k: int| 0 <= k < fields@.len() ==> views(fields@)[k] == fields@[k]@);
            }
            if fields.len() >= 3 && is_network_fs(fields[2]) {
                let automount: bool = fields.len() >= 4 && is_automount(fields[3]);
                let e: FstabEntry = FstabEntry {
                    device: fields[0].to_owned(),
                    mountpoint: fields[1].to_owned(),
                    fstype: fields[2].to_owned(),
                    automount,
                };
                proof {
                    lemma_views_push(out@, e);
                }
                out.push(e);
            }
        }
        i = i + 1;
    }
    proof {
        assert(all.take(i as int) =~= all);
    }
    Ok(out)
}

/// An entry for this mountpoint is declared.
pub open spec fn declares(entries: Seq<FstabRecord>, mountpoint: Seq<char>) -> bool {
    exists|i: int| 0 <= i < entries.len() && #[trigger] entries[i].mountpoint == mountpoint
}

/// Is an entry for this mountpoint declared?
pub fn is_declared(entries: &[FstabEntry], mountpoint: &str) -> (r: bool)
    ensures
        r == declares(views(entries@), mountpoint@),
{
    let mut i: usize = 0;
    while i < entries.len()
        invariant
            i <= entries@.len(),
            forall|j: int|
                0 <= j < i ==> #[trigger] views(entries@)[j].mountpoint != mountpoint@,
        decreases entries@.len() - i,
    {
        proof {
            assert(views(entries@)[i as int].mountpoint == entries@[i as int].mountpoint@);
        }
        if same(entries[i].mountpoint.as_str(), mountpoint) {
            return true;
        }
        i = i + 1;
    }
    false
}

/// Is something in the table mounted on this mountpoint?
pub fn is_mounted(mounts: &[Mount], mountpoint: &str) -> (r: bool)
    ensures
        r == mounted_on(views(mounts@), mountpoint@),
{
    let mut i: usize = 0;
    while i < mounts.len()
        invariant
            i <= mounts@.len(),
            forall|j: int|
                0 <= j < i ==> #[trigger] views(mounts@)[j].mountpoint != mountpoint@,
        decreases mounts@.len() - i,
    {
        proof {
            assert(views(mounts@)[i as int].mountpoint == mounts@[i as int].mountpoint@);
        }
        if same(mounts[i].mountpoint.as_str(), mountpoint) {
            return true;
        }
        i = i + 1;
    }
    false
}

/// The entry is watched, and nothing is mounted where it should be.
pub open spec fn is_missing(
    e: FstabRecord,
    live: Seq<MountRecord>,
    watch: Seq<Seq<char>>,
) -> bool {
    watched(e.mountpoint, watch) && !mounted_on(live, e.mountpoint)
}

/// The declared mounts that are absent from the mount table. A failed automount falls through to
/// an empty local directory that probes healthy, so absence is the only signal.
pub fn missing_mounts(live: &[Mount], expected: Vec<FstabEntry>, watch: &[String]) -> (r: Vec<
    FstabEntry,
>)
    ensures
        r@ == expected@.filter(|e: FstabEntry| is_missing(e@, views(live@), views(watch@))),
        views(r@) == views(expected@).filter(
            |e: FstabRecord| is_missing(e, views(live@), views(watch@)),
        ),
{
    let ghost all = expected@;
    let ghost keep = |e: FstabEntry| is_missing(e@, views(live@), views(watch@));
    let mut out: Vec<FstabEntry> = Vec::new();
    for e in it: expected
        invariant
            it.seq() == all,
            keep == (|e: FstabEntry| is_missing(e@, views(live@), views(watch@))),
            out@ == all.take(it.index() as int).filter(keep),
    {
        proof {
            lemma_filter_next(all, keep, it.index() as int);
        }
        if path_under_watch(e.mountpoint.as_str(), watch) && !is_mounted(
            live,
            e.mountpoint.as_str(),
        ) {
            out.push(e);
        }
    }
    proof {
        assert(all.take(all.len() as int) =~= all);
        lemma_views_filter(
            all,
            keep,
            |e: FstabRecord| is_missing(e, views(live@), views(watch@)),
        );
    }
    out
}

} // verus!
