//! The network mounts of a host: reading the kernel's mount table, folding stacked mounts, and
//! the watch-list and filesystem-type filters.
use vstd::prelude::*;
use vstd::seq_lib::*;
use vstd::string::*;
use vstd::utf8::*;

use crate::error::{NfsError, maybe};
use crate::filtering::{lemma_filter_next, lemma_views_filter};
use crate::text::{
    after_prefix, ends_with_char, gather, lemma_views_push, occurs_at, same, split, split_at_each,
    split_words, starts_with_char, utf8_text, views, words,
};

verus! {

// ---------------------------------------------------------------------------------------------
// Mounts
// ---------------------------------------------------------------------------------------------
/// One network mount. `health` is the last probe's verdict; `layers` is how many mounts are
/// stacked on the mountpoint, only the topmost of which a path resolves to.
#[derive(Debug, PartialEq, Eq)]
pub struct Mount {
    pub device: String,
    pub mountpoint: String,
    pub fstype: String,
    pub health: Option<String>,
    pub layers: u32,
}

/// The mathematical content of a [`Mount`].
#[verifier::ext_equal]
pub struct MountRecord {
    pub device: Seq<char>,
    pub mountpoint: Seq<char>,
    pub fstype: Seq<char>,
    pub health: Option<Seq<char>>,
    pub layers: u32,
}

impl View for Mount {
    type V = MountRecord;

    open spec fn view(&self) -> MountRecord {
        MountRecord {
            device: self.device@,
            mountpoint: self.mountpoint@,
            fstype: self.fstype@,
            health: maybe(self.health),
            layers: self.layers,
        }
    }
}

impl Clone for Mount {
    fn clone(&self) -> (r: Self)
        ensures
            r@ == self@,
    {
        Mount {
            device: self.device.clone(),
            mountpoint: self.mountpoint.clone(),
            fstype: self.fstype.clone(),
            health: match &self.health {
                Some(h) => Some(h.clone()),
                None => None,
            },
            layers: self.layers,
        }
    }
}

/// The network filesystem types that are reported on.
pub open spec fn network_fs(fstype: Seq<char>) -> bool {
    fstype == "nfs"@ || fstype == "nfs4"@ || fstype == "cifs"@ || fstype == "smbfs"@
}

/// Is `fstype` one of the network filesystems that are reported on?
pub fn is_network_fs(fstype: &str) -> (r: bool)
    ensures
        r == network_fs(fstype@),
{
    same(fstype, "nfs") || same(fstype, "nfs4") || same(fstype, "cifs") || same(fstype, "smbfs")
}

/// The network filesystem types that are reported on, as a list.
pub fn network_fstypes() -> (r: Vec<&'static str>)
    ensures
        views(r@) == seq!["nfs"@, "nfs4"@, "cifs"@, "smbfs"@],
        forall|fstype: Seq<char>| #[trigger] views(r@).contains(fstype) == network_fs(fstype),
{
    let r: Vec<&'static str> = vec!["nfs", "nfs4", "cifs", "smbfs"];
    proof {
        let all = views(r@);
        assert(all =~= seq!["nfs"@, "nfs4"@, "cifs"@, "smbfs"@]);
        assert forall|fstype: Seq<char>| #[trigger] all.contains(fstype) == network_fs(
            fstype,
        ) by {
            assert(all[0] == "nfs"@);
            assert(all[1] == "nfs4"@);
            assert(all[2] == "cifs"@);
            assert(all[3] == "smbfs"@);
        }
    }
    r
}

/// One row of the kernel's mount table.
pub struct MountTableEntry {
    pub source: String,
    pub mountpoint: String,
    pub fstype: String,
}

/// A mount as it stands in the mount table: not probed, one layer.
pub open spec fn fresh_mount(
    device: Seq<char>,
    mountpoint: Seq<char>,
    fstype: Seq<char>,
) -> MountRecord {
    MountRecord { device, mountpoint, fstype, health: None, layers: 1 }
}

/// The mounts of a mount table, one for each row.
pub fn read_mounts(table: Vec<MountTableEntry>) -> (r: Vec<Mount>)
    ensures
        views(r@) == table@.map_values(
            |e: MountTableEntry| fresh_mount(e.source@, e.mountpoint@, e.fstype@),
        ),
{
    let ghost all = table@;
    let ghost to_mount = |e: MountTableEntry| fresh_mount(e.source@, e.mountpoint@, e.fstype@);
    let mut out: Vec<Mount> = Vec::new();
    for e in it: table
        invariant
            it.seq() == all,
            to_mount == (|e: MountTableEntry| fresh_mount(e.source@, e.mountpoint@, e.fstype@)),
            views(out@) =~= all.take(it.index() as int).map_values(to_mount),
    {
        let m: Mount = Mount {
            device: e.source,
            mountpoint: e.mountpoint,
            fstype: e.fstype,
            health: None,
            layers: 1,
        };
        proof {
            lemma_views_push(out@, m);
        }
        out.push(m);
    }
    proof {
        assert(all.take(all.len() as int) =~= all);
    }
    out
}

/// What a line of `/proc/mounts` says: device, mountpoint and filesystem type, if it is a network
/// filesystem.
pub open spec fn mount_line(line: Seq<char>) -> Option<MountRecord> {
    let w = words(line);
    if w.len() >= 3 && network_fs(w[2]) {
        Some(fresh_mount(w[0], w[1], w[2]))
    } else {
        None
    }
}

/// The network mounts that a text in the format of `/proc/mounts` lists.
pub open spec fn mounts_in(text: Seq<char>) -> Seq<MountRecord> {
    gather(split(text, '\n'), |line: Seq<char>| mount_line(line))
}

/// The message for a table that is not text.
pub open spec fn not_text() -> Seq<char> {
    "stream did not contain valid UTF-8"@
}

/// Parses a table in the format of `/proc/mounts` into its network mounts.
pub fn parse_mounts(table: &[u8]) -> (r: Result<Vec<Mount>, NfsError>)
    ensures
        match r {
            Ok(mounts) => valid_utf8(table@) && views(mounts@) == mounts_in(decode_utf8(table@)),
            Err(e) => !valid_utf8(table@) && e is Read && e->Read_0@ == not_text(),
        },
{
    let text: &str = match utf8_text(table) {
        Some(text) => text,
        None => {
            return Err(NfsError::Read("stream did not contain valid UTF-8".to_owned()));
        },
    };
    let lines: Vec<&str> = split_at_each(text, '\n');
    let ghost all = views(lines@);
    let ghost read = |line: Seq<char>| mount_line(line);
    let mut out: Vec<Mount> = Vec::new();
    let mut i: usize = 0;
    while i < lines.len()
        invariant
            i <= lines@.len(),
            all == views(lines@),
            read == (|line: Seq<char>| mount_line(line)),
            views(out@) == gather(all.take(i as int), read),
        decreases lines@.len() - i,
    {
        let fields: Vec<&str> = split_words(lines[i]);
        proof {
            assert(all.take(i + 1).drop_last() =~= all.take(i as int));
            assert(all.take(i + 1).last() == lines@[i as int]@);
            assert(fields@.len() == words(lines@[i as int]@).len());
            assert(forall|k: int| 0 <= k < fields@.len() ==> views(fields@)[k] == fields@[k]@);
        }
        if fields.len() >= 3 && is_network_fs(fields[2]) {
            let m: Mount = Mount {
                device: fields[0].to_owned(),
                mountpoint: fields[1].to_owned(),
                fstype: fields[2].to_owned(),
                health: None,
                layers: 1,
            };
            proof {
                lemma_views_push(out@, m);
            }
            out.push(m);
        }
        i = i + 1;
    }
    proof {
        assert(all.take(i as int) =~= all);
    }
    Ok(out)
}

// ---------------------------------------------------------------------------------------------
// Filters
// ---------------------------------------------------------------------------------------------
/// `path` is `prefix` or lies below it. A prefix that ends in `/`, such as the root, ends at a path
/// boundary already.
pub open spec fn under(path: Seq<char>, prefix: Seq<char>) -> bool {
    occurs_at(path, prefix, 0) && (path.len() == prefix.len() || path[prefix.len() as int] == '/'
        || (prefix.len() > 0 && prefix.last() == '/'))
}

/// `path` falls under one of the watched prefixes. An empty watch list watches everything.
pub open spec fn watched(path: Seq<char>, watch: Seq<Seq<char>>) -> bool {
    watch.len() == 0 || exists|i: int| 0 <= i < watch.len() && under(path, #[trigger] watch[i])
}

fn path_under(path: &str, prefix: &str) -> (r: bool)
    ensures
        r == under(path@, prefix@),
{
    match after_prefix(path, prefix) {
        Some(rest) => rest.is_empty() || starts_with_char(rest, '/') || ends_with_char(prefix, '/'),
        None => false,
    }
}

/// Does `path` fall under one of the watched prefixes?
pub fn path_under_watch(path: &str, watch: &[String]) -> (r: bool)
    ensures
        r == watched(path@, views(watch@)),
{
    if watch.len() == 0 {
        return true;
    }
    let mut i: usize = 0;
    while i < watch.len()
        invariant
            watch@.len() > 0,
            i <= watch@.len(),
            forall|j: int| 0 <= j < i ==> !under(path@, #[trigger] views(watch@)[j]),
        decreases watch@.len() - i,
    {
        if path_under(path, watch[i].as_str()) {
            proof {
                assert(views(watch@)[i as int] == watch@[i as int]@);
            }
            return true;
        }
        i = i + 1;
    }
    false
}

/// Keeps the mounts under the watched prefixes. An empty watch list keeps all.
pub fn filter_watch(mounts: Vec<Mount>, watch: &[String]) -> (r: Vec<Mount>)
    ensures
        r@ == mounts@.filter(|m: Mount| watched(m.mountpoint@, views(watch@))),
        views(r@) == views(mounts@).filter(
            |m: MountRecord| watched(m.mountpoint, views(watch@)),
        ),
{
    let ghost all = mounts@;
    let ghost keep = |m: Mount| watched(m.mountpoint@, views(watch@));
    let mut out: Vec<Mount> = Vec::new();
    for m in it: mounts
        invariant
            it.seq() == all,
            keep == (|m: Mount| watched(m.mountpoint@, views(watch@))),
            out@ == all.take(it.index() as int).filter(keep),
    {
        proof {
            lemma_filter_next(all, keep, it.index() as int);
        }
        if path_under_watch(m.mountpoint.as_str(), watch) {
            out.push(m);
        }
    }
    proof {
        assert(all.take(all.len() as int) =~= all);
        lemma_views_filter(
            all,
            keep,
            |m: MountRecord| watched(m.mountpoint, views(watch@)),
        );
    }
    out
}

/// The mounts of one filesystem type; the empty type stands for all.
pub open spec fn of_fstype(fstype: Seq<char>, filter: Seq<char>) -> bool {
    filter.len() == 0 || fstype == filter
}

/// Keeps the mounts of exactly this filesystem type. An empty filter keeps all.
pub fn filter_by_fstype(mounts: Vec<Mount>, fstype: &str) -> (r: Vec<Mount>)
    ensures
        r@ == mounts@.filter(|m: Mount| of_fstype(m.fstype@, fstype@)),
        views(r@) == views(mounts@).filter(|m: MountRecord| of_fstype(m.fstype, fstype@)),
{
    let ghost all = mounts@;
    let ghost keep = |m: Mount| of_fstype(m.fstype@, fstype@);
    let mut out: Vec<Mount> = Vec::new();
    for m in it: mounts
        invariant
            it.seq() == all,
            keep == (|m: Mount| of_fstype(m.fstype@, fstype@)),
            out@ == all.take(it.index() as int).filter(keep),
    {
        proof {
            lemma_filter_next(all, keep, it.index() as int);
        }
        if fstype.is_empty() || same(m.fstype.as_str(), fstype) {
            out.push(m);
        }
    }
    proof {
        assert(all.take(all.len() as int) =~= all);
        lemma_views_filter(all, keep, |m: MountRecord| of_fstype(m.fstype, fstype@));
    }
    out
}

// ---------------------------------------------------------------------------------------------
// Stacked mounts
// ---------------------------------------------------------------------------------------------
/// Something in the table is mounted on `mountpoint`.
pub open spec fn mounted_on(mounts: Seq<MountRecord>, mountpoint: Seq<char>) -> bool {
    exists|i: int| 0 <= i < mounts.len() && #[trigger] mounts[i].mountpoint == mountpoint
}

/// The mountpoints in the order in which they are first seen, each once.
pub open spec fn mountpoints(mounts: Seq<MountRecord>) -> Seq<Seq<char>>
    decreases mounts.len(),
{
    if mounts.len() == 0 {
        Seq::empty()
    } else {
        let before = mounts.drop_last();
        if mounted_on(before, mounts.last().mountpoint) {
            mountpoints(before)
        } else {
            mountpoints(before).push(mounts.last().mountpoint)
        }
    }
}

/// The mount that a path lookup resolves to: the last one in the table, which lists the oldest
/// first.
pub open spec fn topmost(mounts: Seq<MountRecord>, mountpoint: Seq<char>) -> MountRecord
    recommends
        mounted_on(mounts, mountpoint),
    decreases mounts.len(),
{
    if mounts.len() <= 1 || mounts.last().mountpoint == mountpoint {
        mounts.last()
    } else {
        topmost(mounts.drop_last(), mountpoint)
    }
}

/// How many mounts are stacked on `mountpoint`: the layers of the first entry, and one for every
/// further entry.
pub open spec fn depth(mounts: Seq<MountRecord>, mountpoint: Seq<char>) -> int
    decreases mounts.len(),
{
    if mounts.len() == 0 {
        0
    } else {
        let before = mounts.drop_last();
        if mounts.last().mountpoint != mountpoint {
            depth(before, mountpoint)
        } else if mounted_on(before, mountpoint) {
            depth(before, mountpoint) + 1
        } else {
            mounts.last().layers as int
        }
    }
}

/// The one entry that stands for everything stacked on `mountpoint`.
pub open spec fn stack(mounts: Seq<MountRecord>, mountpoint: Seq<char>) -> MountRecord {
    MountRecord { layers: depth(mounts, mountpoint) as u32, ..topmost(mounts, mountpoint) }
}

/// One entry for each mountpoint, in first-seen order.
pub open spec fn collapsed(mounts: Seq<MountRecord>) -> Seq<MountRecord> {
    mountpoints(mounts).map_values(|mountpoint: Seq<char>| stack(mounts, mountpoint))
}

/// No stack is deeper than a `u32` can count.
pub open spec fn depths_fit(mounts: Seq<MountRecord>) -> bool {
    forall|mountpoint: Seq<char>| #[trigger] depth(mounts, mountpoint) <= u32::MAX
}

/// A depth never shrinks as the table grows.
proof fn lemma_depth_grows(mounts: Seq<MountRecord>, n: int, mountpoint: Seq<char>)
    requires
        0 <= n <= mounts.len(),
    ensures
        mounted_on(mounts.take(n), mountpoint) ==> mounted_on(mounts, mountpoint),
        mounted_on(mounts.take(n), mountpoint) ==> depth(mounts.take(n), mountpoint) <= depth(
            mounts,
            mountpoint,
        ),
    decreases mounts.len(),
{
    if n == mounts.len() {
        assert(mounts.take(n) =~= mounts);
    } else {
        let before = mounts.drop_last();
        assert(before.take(n) =~= mounts.take(n));
        lemma_depth_grows(before, n, mountpoint);
        if mounted_on(before, mountpoint) {
            let i = choose|i: int|
                0 <= i < before.len() && #[trigger] before[i].mountpoint == mountpoint;
            assert(mounts[i].mountpoint == mountpoint);
        }
    }
}

pub proof fn lemma_mounted_push(mounts: Seq<MountRecord>, m: MountRecord, mountpoint: Seq<char>)
    ensures
        mounted_on(mounts.push(m), mountpoint) == (mounted_on(mounts, mountpoint) || m.mountpoint
            == mountpoint),
{
    let all = mounts.push(m);
    if mounted_on(mounts, mountpoint) {
        let i = choose|i: int|
            0 <= i < mounts.len() && #[trigger] mounts[i].mountpoint == mountpoint;
        assert(all[i].mountpoint == mountpoint);
    }
    if m.mountpoint == mountpoint {
        assert(all[mounts.len() as int].mountpoint == mountpoint);
    }
    if mounted_on(all, mountpoint) {
        let i = choose|i: int| 0 <= i < all.len() && #[trigger] all[i].mountpoint == mountpoint;
        if i < mounts.len() {
            assert(mounts[i].mountpoint == mountpoint);
        }
    }
}

/// The listed mountpoints are those mounted on, each listed once.
pub proof fn lemma_mountpoints(mounts: Seq<MountRecord>)
    ensures
        mountpoints(mounts).no_duplicates(),
        forall|p: Seq<char>| #[trigger] mountpoints(mounts).contains(p) == mounted_on(mounts, p),
    decreases mounts.len(),
{
    if mounts.len() > 0 {
        let before = mounts.drop_last();
        let last = mounts.last();
        lemma_mountpoints(before);
        assert(before.push(last) =~= mounts);
        assert forall|p: Seq<char>| #[trigger] mountpoints(mounts).contains(p) == mounted_on(
            mounts,
            p,
        ) by {
            lemma_mounted_push(before, last, p);
            let old_list = mountpoints(before);
            assert(old_list.contains(p) == mounted_on(before, p));
            if !mounted_on(before, last.mountpoint) {
                let list = old_list.push(last.mountpoint);
                assert(mountpoints(mounts) == list);
                if old_list.contains(p) {
                    let i = choose|i: int| 0 <= i < old_list.len() && old_list[i] == p;
                    assert(list[i] == p);
                }
                if p == last.mountpoint {
                    assert(list[old_list.len() as int] == p);
                }
            }
        }
        if !mounted_on(before, last.mountpoint) {
            assert(!mountpoints(before).contains(last.mountpoint));
        }
    }
}

/// One more row: what it does to a stack.
pub proof fn lemma_stack_push(mounts: Seq<MountRecord>, m: MountRecord, mountpoint: Seq<char>)
    ensures
        m.mountpoint != mountpoint && mounted_on(mounts, mountpoint) ==> stack(
            mounts.push(m),
            mountpoint,
        ) == stack(mounts, mountpoint),
        m.mountpoint == mountpoint ==> topmost(mounts.push(m), mountpoint) == m,
        m.mountpoint == mountpoint && mounted_on(mounts, mountpoint) ==> depth(
            mounts.push(m),
            mountpoint,
        ) == depth(mounts, mountpoint) + 1,
        m.mountpoint == mountpoint && !mounted_on(mounts, mountpoint) ==> depth(
            mounts.push(m),
            mountpoint,
        ) == m.layers,
{
    assert(mounts.push(m).drop_last() =~= mounts);
}

/// A listed stack carries its mountpoint, and its depth is not negative.
proof fn lemma_topmost_mountpoint(mounts: Seq<MountRecord>, mountpoint: Seq<char>)
    requires
        mounted_on(mounts, mountpoint),
    ensures
        topmost(mounts, mountpoint).mountpoint == mountpoint,
        depth(mounts, mountpoint) >= 0,
    decreases mounts.len(),
{
    let before = mounts.drop_last();
    lemma_mounted_push(before, mounts.last(), mountpoint);
    assert(before.push(mounts.last()) =~= mounts);
    if mounted_on(before, mountpoint) {
        lemma_topmost_mountpoint(before, mountpoint);
    }
}

/// Collapses stacked mounts into one entry per mountpoint, which carries the stack's depth and
/// the topmost mount's device, type and health.
pub fn collapse_layers(mounts: Vec<Mount>) -> (r: Vec<Mount>)
    requires
        depths_fit(views(mounts@)),
    ensures
        views(r@) == collapsed(views(mounts@)),
{
    let ghost all = views(mounts@);
    let ghost values = mounts@;
    let mut out: Vec<Mount> = Vec::new();
    proof {
        assert(collapsed(all.take(0)) =~= Seq::empty());
    }
    for m in it: mounts
        invariant
            it.seq() == values,
            all == views(values),
            depths_fit(all),
            views(out@) =~= collapsed(all.take(it.index() as int)),
    {
        let ghost n = it.index() as int;
        let ghost seen = all.take(n);
        let ghost next = all.take(n + 1);
        let ghost before = out@;
        let ghost record = m@;
        proof {
            assert(next =~= seen.push(m@));
            assert(next.drop_last() =~= seen);
            lemma_mountpoints(seen);
            lemma_mountpoints(next);
            assert(views(before) == collapsed(seen));
            assert(views(before).len() == before.len());
        }
        let mut k: usize = 0;
        while k < out.len() && !same(out[k].mountpoint.as_str(), m.mountpoint.as_str())
            invariant
                k <= out@.len(),
                out@ == before,
                forall|j: int|
                    0 <= j < k ==> (#[trigger] out@[j]).mountpoint@ != m.mountpoint@,
            decreases out@.len() - k,
        {
            k = k + 1;
        }
        proof {
            assert forall|j: int| 0 <= j < before.len() implies (
            #[trigger] before[j]).mountpoint@ == mountpoints(seen)[j] by {
                assert(views(before)[j] == stack(seen, mountpoints(seen)[j]));
                assert(mountpoints(seen).contains(mountpoints(seen)[j]));
                lemma_topmost_mountpoint(seen, mountpoints(seen)[j]);
            }
            assert forall|j: int| 0 <= j < before.len() && j != k implies stack(
                next,
                #[trigger] mountpoints(seen)[j],
            ) == stack(seen, mountpoints(seen)[j]) by {
                assert(mountpoints(seen).contains(mountpoints(seen)[j]));
                assert(before[j].mountpoint@ == mountpoints(seen)[j]);
                if k < before.len() {
                    assert(before[k as int].mountpoint@ == mountpoints(seen)[k as int]);
                }
                lemma_stack_push(seen, m@, mountpoints(seen)[j]);
            }
            lemma_stack_push(seen, m@, m.mountpoint@);
        }
        if k < out.len() {
            proof {
                assert(mountpoints(seen).contains(mountpoints(seen)[k as int]));
                assert(mounted_on(seen, m.mountpoint@));
                assert(views(before)[k as int] == stack(seen, m.mountpoint@));
                lemma_topmost_mountpoint(seen, m.mountpoint@);
                lemma_depth_grows(all, n, m.mountpoint@);
                lemma_depth_grows(all, n + 1, m.mountpoint@);
                lemma_mounted_push(seen, m@, m.mountpoint@);
                assert(depth(all, m.mountpoint@) <= u32::MAX);
            }
            let layers: u32 = out[k].layers + 1;
            let top: Mount = Mount {
                device: m.device,
                mountpoint: m.mountpoint,
                fstype: m.fstype,
                health: m.health,
                layers,
            };
            out[k] = top;
            proof {
                assert(out@ == before.update(k as int, top));
                assert(views(out@) =~= views(before).update(k as int, top@));
                assert(top@ =~= stack(next, record.mountpoint));
                assert(mountpoints(next) == mountpoints(seen));
                assert(views(out@) =~= collapsed(next));
            }
        } else {
            proof {
                if mounted_on(seen, m.mountpoint@) {
                    assert(mountpoints(seen).contains(m.mountpoint@));
                    let j = choose|j: int|
                        0 <= j < mountpoints(seen).len() && mountpoints(seen)[j] == m.mountpoint@;
                    assert(before[j].mountpoint@ == mountpoints(seen)[j]);
                }
                lemma_views_push(before, m);
                assert(m@ =~= stack(next, m.mountpoint@));
            }
            out.push(m);
            proof {
                assert(views(out@) =~= collapsed(next));
            }
        }
    }
    proof {
        assert(all.take(all.len() as int) =~= all);
    }
    out
}

// ---------------------------------------------------------------------------------------------
// Health
// ---------------------------------------------------------------------------------------------
/// The verdict of one probe of a path.
#[derive(Debug, Clone, Copy, PartialEq, Eq, Structural)]
pub enum Health {
    Live,
    Stale,
    Timeout,
    Missing,
    Error,
}

/// How a probe's verdict is reported. A hang and a missing path count as stale, so that recovery
/// reaches them too.
pub open spec fn verdict(health: Health) -> Seq<char> {
    match health {
        Health::Live => "ok"@,
        Health::Stale => "stale"@,
        Health::Timeout => "stale"@,
        Health::Missing => "stale"@,
        Health::Error => "error: probe failed"@,
    }
}

/// The report of a probe: `"ok"`, `"stale"` or `"error: …"`.
pub fn check_health(health: Health) -> (r: String)
    ensures
        r@ == verdict(health),
{
    match health {
        Health::Live => "ok".to_owned(),
        Health::Stale | Health::Timeout | Health::Missing => "stale".to_owned(),
        Health::Error => "error: probe failed".to_owned(),
    }
}

/// The mount at `i` is the one that `source` resolves through: the longest mountpoint that covers
/// it, and the last in the list of those equally long.
pub open spec fn resolves_through(mounts: Seq<MountRecord>, source: Seq<char>, i: int) -> bool {
    &&& 0 <= i < mounts.len()
    &&& under(source, mounts[i].mountpoint)
    &&& forall|j: int|
        0 <= j < mounts.len() && under(source, (#[trigger] mounts[j]).mountpoint)
            ==> mounts[j].mountpoint.len() < mounts[i].mountpoint.len()
            || mounts[j].mountpoint.len() == mounts[i].mountpoint.len() && j <= i
}

/// The mount that `source` resolves through is healthy.
pub open spec fn source_healthy(mounts: Seq<MountRecord>, source: Seq<char>) -> bool {
    exists|i: int| #[trigger]
        resolves_through(mounts, source, i) && mounts[i].health == Some("ok"@)
}

/// Is the host mount that covers `source` healthy? A source that no mount covers is not.
pub fn host_source_healthy(source: &str, mounts: &[Mount]) -> (r: bool)
    ensures
        r == exists|i: int|
            #[trigger] resolves_through(views(mounts@), source@, i) && views(mounts@)[i].health
                == Some("ok"@),
        r == source_healthy(views(mounts@), source@),
{
    let ghost all = views(mounts@);
    let mut best: Option<usize> = None;
    let mut longest: usize = 0;
    let mut i: usize = 0;
    while i < mounts.len()
        invariant
            i <= mounts@.len(),
            all == views(mounts@),
            best is None ==> forall|j: int|
                0 <= j < i ==> !under(source@, (#[trigger] all[j]).mountpoint),
            best matches Some(b) ==> b < i && longest == all[b as int].mountpoint.len() && under(
                source@,
                all[b as int].mountpoint,
            ) && forall|j: int|
                0 <= j < i && under(source@, (#[trigger] all[j]).mountpoint)
                    ==> all[j].mountpoint.len() < longest || all[j].mountpoint.len() == longest
                    && j <= b,
        decreases mounts@.len() - i,
    {
        let mountpoint: &str = mounts[i].mountpoint.as_str();
        proof {
            assert(all[i as int].mountpoint == mountpoint@);
        }
        if path_under(source, mountpoint) {
            let len: usize = mountpoint.unicode_len();
            if best.is_none() || len >= longest {
                best = Some(i);
                longest = len;
            }
        }
        i = i + 1;
    }
    match best {
        None => {
            proof {
                assert forall|k: int| !#[trigger] resolves_through(all, source@, k) by {}
            }
            false
        },
        Some(b) => {
            proof {
                assert(resolves_through(all, source@, b as int));
                assert forall|k: int| #[trigger] resolves_through(all, source@, k) implies k
                    == b by {}
                assert(all[b as int] == mounts@[b as int]@);
            }
            match &mounts[b].health {
                Some(h) => same(h.as_str(), "ok"),
                None => false,
            }
        },
    }
}

// ---------------------------------------------------------------------------------------------
// Listing
// ---------------------------------------------------------------------------------------------
/// The mounts to report on: those watched and of the wanted type.
pub open spec fn selected(
    mounts: Seq<MountRecord>,
    watch: Seq<Seq<char>>,
    fstype: Seq<char>,
) -> Seq<MountRecord> {
    mounts.filter(|m: MountRecord| watched(m.mountpoint, watch)).filter(
        |m: MountRecord| of_fstype(m.fstype, fstype),
    )
}

/// The mounts to probe for a listing: watched, of the wanted type, one entry per mountpoint.
pub fn list(mounts: Vec<Mount>, watch: &[String], fstype_filter: &str) -> (r: Vec<Mount>)
    requires
        depths_fit(selected(views(mounts@), views(watch@), fstype_filter@)),
    ensures
        views(r@) == collapsed(selected(views(mounts@), views(watch@), fstype_filter@)),
{
    collapse_layers(filter_by_fstype(filter_watch(mounts, watch), fstype_filter))
}

/// The mounts with the verdicts of the probes.
pub open spec fn probed(mounts: Seq<MountRecord>, verdicts: Seq<Health>) -> Seq<MountRecord> {
    mounts.map(
        |i: int, m: MountRecord|
            if i < verdicts.len() {
                MountRecord { health: Some(verdict(verdicts[i])), ..m }
            } else {
                m
            },
    )
}

/// The listing with the verdicts of the probes, one for each mount in order. A mount for which
/// there is no verdict stays as it is.
pub fn with_health(mounts: Vec<Mount>, verdicts: &[Health]) -> (r: Vec<Mount>)
    ensures
        r@.len() == mounts@.len(),
        forall|i: int|
            0 <= i < r@.len() ==> (#[trigger] r@[i])@ == if i < verdicts@.len() {
                MountRecord { health: Some(verdict(verdicts@[i])), ..mounts@[i]@ }
            } else {
                mounts@[i]@
            },
        views(r@) == probed(views(mounts@), verdicts@),
{
    let ghost all = mounts@;
    let mut out: Vec<Mount> = Vec::new();
    for m in it: mounts
        invariant
            it.seq() == all,
            out@.len() == it.index(),
            forall|i: int|
                0 <= i < out@.len() ==> (#[trigger] out@[i])@ == if i < verdicts@.len() {
                    MountRecord { health: Some(verdict(verdicts@[i])), ..all[i]@ }
                } else {
                    all[i]@
                },
    {
        let i: usize = out.len();
        if i < verdicts.len() {
            out.push(
                Mount {
                    device: m.device,
                    mountpoint: m.mountpoint,
                    fstype: m.fstype,
                    health: Some(check_health(verdicts[i])),
                    layers: m.layers,
                },
            );
        } else {
            out.push(m);
        }
    }
    proof {
        assert(views(out@) =~= probed(views(all), verdicts@));
    }
    out
}

} // verus!
