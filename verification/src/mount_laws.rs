//! What holds of the mount-table operations together.
use vstd::prelude::*;
use vstd::seq_lib::*;
use vstd::string::*;

use crate::filtering::{lemma_filter_all, lemma_filter_membership, lemma_filter_subset};
use crate::fstab::{FstabRecord, declared_in, fstab_line, is_entry, is_missing};
use crate::mounts::{
    Health, MountRecord, collapsed, depth, depths_fit, lemma_mounted_push, lemma_mountpoints,
    lemma_stack_push, mount_line, mounted_on, mountpoints, mounts_in, network_fs, of_fstype,
    probed, resolves_through, selected, source_healthy, stack, topmost, under, verdict, watched,
};
use crate::text::{gather, split};

verus! {

// ---------------------------------------------------------------------------------------------
// Reading tables
// ---------------------------------------------------------------------------------------------
proof fn lemma_gathered_mounts(
    lines: Seq<Seq<char>>,
    read: spec_fn(Seq<char>) -> Option<MountRecord>,
)
    requires
        read == (|line: Seq<char>| mount_line(line)),
    ensures
        forall|i: int|
            0 <= i < gather(lines, read).len() ==> network_fs(
                (#[trigger] gather(lines, read)[i]).fstype,
            ) && gather(lines, read)[i].health is None && gather(lines, read)[i].layers == 1,
    decreases lines.len(),
{
    if lines.len() > 0 {
        lemma_gathered_mounts(lines.drop_last(), read);
    }
}

/// A parsed mount table holds network mounts only, each not yet probed and one layer deep.
pub proof fn law_parsed_mounts_are_network_mounts(text: Seq<char>, i: int)
    requires
        0 <= i < mounts_in(text).len(),
    ensures
        network_fs(mounts_in(text)[i].fstype),
        mounts_in(text)[i].health is None,
        mounts_in(text)[i].layers == 1,
{
    lemma_gathered_mounts(split(text, '\n'), |line: Seq<char>| mount_line(line));
}

proof fn lemma_gathered_entries(
    lines: Seq<Seq<char>>,
    read: spec_fn(Seq<char>) -> Option<FstabRecord>,
)
    requires
        read == (|line: Seq<char>| fstab_line(line)),
    ensures
        forall|i: int|
            0 <= i < gather(lines, read).len() ==> network_fs(
                (#[trigger] gather(lines, read)[i]).fstype,
            ),
    decreases lines.len(),
{
    if lines.len() > 0 {
        lemma_gathered_entries(lines.drop_last(), read);
        let before = gather(lines.drop_last(), read);
        assert(read(lines.last()) == fstab_line(lines.last()));
        assert forall|i: int| 0 <= i < gather(lines, read).len() implies network_fs(
            (#[trigger] gather(lines, read)[i]).fstype,
        ) by {
            if i < before.len() {
                assert(gather(lines, read)[i] == before[i]);
            }
        }
    }
}

/// A parsed fstab holds network filesystems only.
pub proof fn law_parsed_fstab_is_network_only(text: Seq<char>, i: int)
    requires
        0 <= i < declared_in(text).len(),
    ensures
        network_fs(declared_in(text)[i].fstype),
{
    lemma_gathered_entries(split(text, '\n'), |line: Seq<char>| fstab_line(line));
}

proof fn lemma_gather_skips(lines: Seq<Seq<char>>, n: int)
    requires
        0 <= n < lines.len(),
        !is_entry(lines[n]),
    ensures
        gather(lines, |line: Seq<char>| fstab_line(line)) == gather(
            lines.remove(n),
            |line: Seq<char>| fstab_line(line),
        ),
    decreases lines.len(),
{
    let less = lines.remove(n);
    if n == lines.len() - 1 {
        assert(less =~= lines.drop_last());
    } else {
        assert(less.drop_last() =~= lines.drop_last().remove(n));
        assert(less.last() == lines.last());
        lemma_gather_skips(lines.drop_last(), n);
    }
}

/// Comments and blank lines of an fstab declare nothing.
pub proof fn law_fstab_comments_declare_nothing(text: Seq<char>, n: int)
    requires
        0 <= n < split(text, '\n').len(),
        !is_entry(split(text, '\n')[n]),
    ensures
        declared_in(text) == gather(
            split(text, '\n').remove(n),
            |line: Seq<char>| fstab_line(line),
        ),
{
    lemma_gather_skips(split(text, '\n'), n);
}

// ---------------------------------------------------------------------------------------------
// Filters
// ---------------------------------------------------------------------------------------------
/// A watched prefix matches itself and what lies below it, at a path boundary: before a `/`, or
/// behind the `/` that the prefix ends in. The root matches every absolute path.
pub proof fn law_watch_matches_at_path_boundaries(path: Seq<char>, prefix: Seq<char>)
    ensures
        under(path, prefix) <==> {
            ||| path == prefix
            ||| exists|rest: Seq<char>| path == #[trigger] (prefix + "/"@ + rest)
            ||| prefix.len() > 0 && prefix.last() == '/' && exists|rest: Seq<char>|
                path == #[trigger] (prefix + rest)
        },
        path.len() > 0 && path[0] == '/' ==> under(path, "/"@),
{
    reveal_strlit("/");
    if path.len() > 0 && path[0] == '/' {
        assert(path.subrange(0, 1) =~= "/"@);
    }
    let n = prefix.len() as int;
    if under(path, prefix) {
        assert(path.subrange(0, n) == prefix);
        if path.len() == n {
            assert(path =~= path.subrange(0, n));
        } else if path[n] == '/' {
            let rest = path.skip(n + 1);
            assert(path =~= prefix + "/"@ + rest);
        } else {
            let rest = path.skip(n);
            assert(path =~= prefix + rest);
        }
    }
    if prefix.len() > 0 && prefix.last() == '/' && exists|rest: Seq<char>|
        path == #[trigger] (prefix + rest) {
        let rest = choose|rest: Seq<char>| path == #[trigger] (prefix + rest);
        assert(path.subrange(0, n) =~= prefix);
    }
    if path == prefix {
        assert(path.subrange(0, n) =~= prefix);
    }
    if exists|rest: Seq<char>| path == #[trigger] (prefix + "/"@ + rest) {
        let rest = choose|rest: Seq<char>| path == #[trigger] (prefix + "/"@ + rest);
        assert(path.subrange(0, n) =~= prefix);
        assert(path[n] == '/');
    }
}

/// An empty watch list and an empty type filter let every mount through.
pub proof fn law_empty_filters_pass_everything(mounts: Seq<MountRecord>)
    ensures
        mounts.filter(|m: MountRecord| watched(m.mountpoint, Seq::empty())) == mounts,
        mounts.filter(|m: MountRecord| of_fstype(m.fstype, Seq::empty())) == mounts,
        selected(mounts, Seq::empty(), Seq::empty()) == mounts,
{
    lemma_filter_all(mounts, |m: MountRecord| watched(m.mountpoint, Seq::empty()));
    lemma_filter_all(mounts, |m: MountRecord| of_fstype(m.fstype, Seq::empty()));
}

// ---------------------------------------------------------------------------------------------
// Stacks
// ---------------------------------------------------------------------------------------------
/// The position at which a mountpoint is first seen.
pub open spec fn first_seen(mounts: Seq<MountRecord>, mountpoint: Seq<char>) -> int
    decreases mounts.len(),
{
    if mounts.len() == 0 || mounts[0].mountpoint == mountpoint {
        0
    } else {
        1 + first_seen(mounts.skip(1), mountpoint)
    }
}

proof fn lemma_first_seen(mounts: Seq<MountRecord>, mountpoint: Seq<char>)
    ensures
        0 <= first_seen(mounts, mountpoint) <= mounts.len(),
        forall|i: int|
            0 <= i < first_seen(mounts, mountpoint) ==> (#[trigger] mounts[i]).mountpoint
                != mountpoint,
        first_seen(mounts, mountpoint) < mounts.len() ==> mounts[first_seen(
            mounts,
            mountpoint,
        )].mountpoint == mountpoint,
        mounted_on(mounts, mountpoint) <==> first_seen(mounts, mountpoint) < mounts.len(),
    decreases mounts.len(),
{
    if mounts.len() > 0 {
        let rest = mounts.skip(1);
        lemma_first_seen(rest, mountpoint);
        if mounts[0].mountpoint != mountpoint {
            assert forall|i: int| 0 <= i < first_seen(mounts, mountpoint) implies (
            #[trigger] mounts[i]).mountpoint != mountpoint by {
                if i > 0 {
                    assert(rest[i - 1] == mounts[i]);
                }
            }
        }
    }
}

proof fn lemma_first_seen_prefix(mounts: Seq<MountRecord>, mountpoint: Seq<char>)
    requires
        mounts.len() > 0,
        mounted_on(mounts.drop_last(), mountpoint),
    ensures
        first_seen(mounts, mountpoint) == first_seen(mounts.drop_last(), mountpoint),
{
    let before = mounts.drop_last();
    lemma_first_seen(before, mountpoint);
    lemma_first_seen(mounts, mountpoint);
    let a = first_seen(before, mountpoint);
    let b = first_seen(mounts, mountpoint);
    assert(before[a] == mounts[a]);
    if b < a {
        assert(before[b] == mounts[b]);
    }
}

proof fn lemma_first_seen_order(mounts: Seq<MountRecord>)
    ensures
        forall|i: int, j: int|
            0 <= i < j < mountpoints(mounts).len() ==> first_seen(
                mounts,
                #[trigger] mountpoints(mounts)[i],
            ) < first_seen(mounts, #[trigger] mountpoints(mounts)[j]),
    decreases mounts.len(),
{
    if mounts.len() > 0 {
        let before = mounts.drop_last();
        lemma_first_seen_order(before);
        lemma_mountpoints(before);
        let list = mountpoints(before);
        assert forall|i: int, j: int| 0 <= i < j < mountpoints(mounts).len() implies first_seen(
            mounts,
            #[trigger] mountpoints(mounts)[i],
        ) < first_seen(mounts, #[trigger] mountpoints(mounts)[j]) by {
            assert(mountpoints(mounts)[i] == list[i]);
            assert(list.contains(list[i]));
            lemma_first_seen_prefix(mounts, list[i]);
            lemma_first_seen(before, list[i]);
            if j < list.len() {
                assert(list.contains(list[j]));
                lemma_first_seen_prefix(mounts, list[j]);
            } else {
                let p = mountpoints(mounts)[j];
                lemma_first_seen(mounts, p);
                let b = first_seen(mounts, p);
                if b < before.len() {
                    assert(before[b].mountpoint == p);
                    assert(mounted_on(before, p));
                }
            }
        }
    }
}

/// Collapsing leaves one entry for each mountpoint in the table, in the order in which the
/// mountpoints are first seen.
pub proof fn law_collapse_lists_each_mountpoint_once(mounts: Seq<MountRecord>)
    ensures
        collapsed(mounts).map_values(|m: MountRecord| m.mountpoint) == mountpoints(mounts),
        mountpoints(mounts).no_duplicates(),
        forall|p: Seq<char>| #[trigger] mountpoints(mounts).contains(p) == mounted_on(mounts, p),
        forall|i: int, j: int|
            0 <= i < j < mountpoints(mounts).len() ==> first_seen(
                mounts,
                #[trigger] mountpoints(mounts)[i],
            ) < first_seen(mounts, #[trigger] mountpoints(mounts)[j]),
{
    lemma_mountpoints(mounts);
    lemma_first_seen_order(mounts);
    let list = mountpoints(mounts);
    assert forall|i: int| 0 <= i < list.len() implies stack(
        mounts,
        #[trigger] list[i],
    ).mountpoint == list[i] by {
        assert(list.contains(list[i]));
        lemma_topmost(mounts, list[i]);
    }
    assert(collapsed(mounts).map_values(|m: MountRecord| m.mountpoint) =~= list);
}

proof fn lemma_topmost(mounts: Seq<MountRecord>, mountpoint: Seq<char>) -> (i: int)
    requires
        mounted_on(mounts, mountpoint),
    ensures
        0 <= i < mounts.len(),
        topmost(mounts, mountpoint) == mounts[i],
        mounts[i].mountpoint == mountpoint,
        forall|j: int| i < j < mounts.len() ==> (#[trigger] mounts[j]).mountpoint != mountpoint,
    decreases mounts.len(),
{
    if mounts.last().mountpoint == mountpoint {
        mounts.len() - 1
    } else {
        let before = mounts.drop_last();
        let k = choose|k: int|
            0 <= k < mounts.len() && #[trigger] mounts[k].mountpoint == mountpoint;
        assert(before[k].mountpoint == mountpoint);
        let i = lemma_topmost(before, mountpoint);
        assert forall|j: int| i < j < mounts.len() implies (#[trigger] mounts[j]).mountpoint
            != mountpoint by {
            if j < before.len() {
                assert(before[j] == mounts[j]);
            }
        }
        i
    }
}

/// A collapsed entry shows the topmost mount: the last row of the table for its mountpoint.
pub proof fn law_collapse_keeps_the_topmost_mount(mounts: Seq<MountRecord>, mountpoint: Seq<char>)
    requires
        mounted_on(mounts, mountpoint),
    ensures
        exists|i: int|
            0 <= i < mounts.len() && (#[trigger] mounts[i]).mountpoint == mountpoint && (forall|
                j: int,
            |
                i < j < mounts.len() ==> (#[trigger] mounts[j]).mountpoint != mountpoint) && stack(
                mounts,
                mountpoint,
            ).device == mounts[i].device && stack(mounts, mountpoint).fstype == mounts[i].fstype
                && stack(mounts, mountpoint).health == mounts[i].health,
{
    let i = lemma_topmost(mounts, mountpoint);
    assert(mounts[i].mountpoint == mountpoint);
}

/// The rows for one mountpoint.
pub open spec fn rows(mounts: Seq<MountRecord>, mountpoint: Seq<char>) -> Seq<MountRecord> {
    mounts.filter(|m: MountRecord| m.mountpoint == mountpoint)
}

/// No row is a stack itself.
pub open spec fn unstacked_rows(mounts: Seq<MountRecord>) -> bool {
    forall|i: int| 0 <= i < mounts.len() ==> (#[trigger] mounts[i]).layers == 1
}

/// The depth of a stack is the number of rows for its mountpoint.
pub proof fn law_depth_counts_the_rows(mounts: Seq<MountRecord>, mountpoint: Seq<char>)
    requires
        unstacked_rows(mounts),
    ensures
        depth(mounts, mountpoint) == rows(mounts, mountpoint).len(),
        mounted_on(mounts, mountpoint) <==> rows(mounts, mountpoint).len() > 0,
    decreases mounts.len(),
{
    reveal(Seq::filter);
    if mounts.len() > 0 {
        let before = mounts.drop_last();
        assert forall|i: int| 0 <= i < before.len() implies (#[trigger] before[i]).layers == 1 by {
            assert(before[i] == mounts[i]);
        }
        law_depth_counts_the_rows(before, mountpoint);
        assert(mounts[mounts.len() - 1].layers == 1);
        if mounted_on(before, mountpoint) {
            let i = choose|i: int|
                0 <= i < before.len() && #[trigger] before[i].mountpoint == mountpoint;
            assert(mounts[i].mountpoint == mountpoint);
        }
        if mounts.last().mountpoint == mountpoint {
            assert(mounts[mounts.len() - 1].mountpoint == mountpoint);
        } else if mounted_on(mounts, mountpoint) {
            let i = choose|i: int|
                0 <= i < mounts.len() && #[trigger] mounts[i].mountpoint == mountpoint;
            assert(before[i].mountpoint == mountpoint);
        }
    }
}

proof fn lemma_depth_bound(mounts: Seq<MountRecord>, mountpoint: Seq<char>)
    requires
        unstacked_rows(mounts),
    ensures
        depth(mounts, mountpoint) <= mounts.len(),
    decreases mounts.len(),
{
    if mounts.len() > 0 {
        let before = mounts.drop_last();
        assert forall|i: int| 0 <= i < before.len() implies (#[trigger] before[i]).layers == 1 by {
            assert(before[i] == mounts[i]);
        }
        lemma_depth_bound(before, mountpoint);
        assert(mounts[mounts.len() - 1].layers == 1);
    }
}

/// The rows of a mount table can always be collapsed, whatever the filters, as long as there are
/// no more of them than a `u32` can count.
pub proof fn law_table_rows_can_be_collapsed(
    mounts: Seq<MountRecord>,
    watch: Seq<Seq<char>>,
    fstype: Seq<char>,
)
    requires
        unstacked_rows(mounts),
        mounts.len() <= u32::MAX,
    ensures
        depths_fit(selected(mounts, watch, fstype)),
        depths_fit(mounts),
{
    let a = mounts.filter(|m: MountRecord| watched(m.mountpoint, watch));
    let b = selected(mounts, watch, fstype);
    lemma_filter_subset(mounts, |m: MountRecord| watched(m.mountpoint, watch));
    lemma_filter_subset(a, |m: MountRecord| of_fstype(m.fstype, fstype));
    assert forall|i: int| 0 <= i < b.len() implies (#[trigger] b[i]).layers == 1 by {
        assert(a.contains(b[i]));
        let k = choose|k: int| 0 <= k < a.len() && a[k] == b[i];
        assert(mounts.contains(a[k]));
    }
    assert forall|p: Seq<char>| #[trigger] depth(b, p) <= u32::MAX by {
        lemma_depth_bound(b, p);
    }
    assert forall|p: Seq<char>| #[trigger] depth(mounts, p) <= u32::MAX by {
        lemma_depth_bound(mounts, p);
    }
}

/// Where no mountpoint is stacked, collapsing changes nothing.
pub proof fn law_collapse_keeps_unstacked_tables(mounts: Seq<MountRecord>)
    requires
        forall|i: int, j: int|
            0 <= i < j < mounts.len() ==> (#[trigger] mounts[i]).mountpoint != (
            #[trigger] mounts[j]).mountpoint,
    ensures
        collapsed(mounts) == mounts,
    decreases mounts.len(),
{
    if mounts.len() > 0 {
        let before = mounts.drop_last();
        let last = mounts.last();
        assert forall|i: int, j: int| 0 <= i < j < before.len() implies (
        #[trigger] before[i]).mountpoint != (#[trigger] before[j]).mountpoint by {
            assert(before[i] == mounts[i] && before[j] == mounts[j]);
        }
        law_collapse_keeps_unstacked_tables(before);
        law_collapse_lists_each_mountpoint_once(before);
        if mounted_on(before, last.mountpoint) {
            let i = choose|i: int|
                0 <= i < before.len() && #[trigger] before[i].mountpoint == last.mountpoint;
            assert(mounts[i].mountpoint == mounts[mounts.len() - 1].mountpoint);
        }
        let list = mountpoints(before);
        assert forall|k: int| 0 <= k < list.len() implies stack(
            mounts,
            #[trigger] list[k],
        ) == mounts[k] by {
            assert(collapsed(before)[k] == stack(before, list[k]));
            assert(list.contains(list[k]));
            assert(before.push(last) =~= mounts);
        }
        assert(stack(mounts, last.mountpoint) =~= last);
        assert(collapsed(mounts) =~= mounts);
    } else {
        assert(collapsed(mounts) =~= mounts);
    }
}

/// Collapsing a collapsed table changes nothing.
pub proof fn law_collapse_is_idempotent(mounts: Seq<MountRecord>)
    ensures
        collapsed(collapsed(mounts)) == collapsed(mounts),
{
    law_collapse_lists_each_mountpoint_once(mounts);
    let c = collapsed(mounts);
    let names = c.map_values(|m: MountRecord| m.mountpoint);
    assert forall|i: int, j: int| 0 <= i < j < c.len() implies (#[trigger] c[i]).mountpoint != (
    #[trigger] c[j]).mountpoint by {
        assert(names[i] == c[i].mountpoint && names[j] == c[j].mountpoint);
    }
    law_collapse_keeps_unstacked_tables(c);
}

// ---------------------------------------------------------------------------------------------
// Health and absence
// ---------------------------------------------------------------------------------------------
/// A stale handle, a hang and a missing path are all reported as stale, and nothing else is.
pub proof fn law_every_kind_of_staleness_is_reported_stale(health: Health)
    ensures
        verdict(health) == "stale"@ <==> health == Health::Stale || health == Health::Timeout
            || health == Health::Missing,
        verdict(health) == "ok"@ <==> health == Health::Live,
{
    reveal_strlit("ok");
    reveal_strlit("stale");
    reveal_strlit("error: probe failed");
    assert("ok"@.len() == 2);
    assert("stale"@.len() == 5);
    assert("error: probe failed"@.len() == 19);
}

/// A covered source resolves through exactly one mount of the list.
pub proof fn law_covered_source_resolves_once(
    mounts: Seq<MountRecord>,
    source: Seq<char>,
    covering: int,
)
    requires
        0 <= covering < mounts.len(),
        under(source, mounts[covering].mountpoint),
    ensures
        exists|i: int| #[trigger] resolves_through(mounts, source, i),
        forall|i: int, j: int|
            #[trigger] resolves_through(mounts, source, i) && #[trigger] resolves_through(
                mounts,
                source,
                j,
            ) ==> i == j,
{
    let i = lemma_resolve(mounts, source, mounts.len() as int, covering);
    assert(resolves_through(mounts, source, i));
}

proof fn lemma_resolve(
    mounts: Seq<MountRecord>,
    source: Seq<char>,
    n: int,
    covering: int,
) -> (i: int)
    requires
        0 <= covering < n <= mounts.len(),
        under(source, mounts[covering].mountpoint),
    ensures
        0 <= i < n,
        under(source, mounts[i].mountpoint),
        forall|j: int|
            0 <= j < n && under(source, (#[trigger] mounts[j]).mountpoint)
                ==> mounts[j].mountpoint.len() < mounts[i].mountpoint.len()
                || mounts[j].mountpoint.len() == mounts[i].mountpoint.len() && j <= i,
    decreases n,
{
    if !(exists|j: int| 0 <= j < n - 1 && under(source, (#[trigger] mounts[j]).mountpoint)) {
        covering
    } else {
        let j = choose|j: int| 0 <= j < n - 1 && under(source, (#[trigger] mounts[j]).mountpoint);
        let best = lemma_resolve(mounts, source, n - 1, j);
        let last = mounts[n - 1];
        if under(source, last.mountpoint) && last.mountpoint.len() >= mounts[best].mountpoint.len() {
            n - 1
        } else {
            best
        }
    }
}

/// Nothing that is mounted is missing, and what is declared, watched and not mounted is.
pub proof fn law_missing_is_declared_minus_mounted(
    declared: Seq<FstabRecord>,
    live: Seq<MountRecord>,
    watch: Seq<Seq<char>>,
    e: FstabRecord,
)
    ensures
        declared.filter(|e: FstabRecord| is_missing(e, live, watch)).contains(e)
            <==> declared.contains(e) && watched(e.mountpoint, watch) && !mounted_on(
            live,
            e.mountpoint,
        ),
{
    let keep = |e: FstabRecord| is_missing(e, live, watch);
    lemma_filter_membership(declared, keep, e);
}

// ---------------------------------------------------------------------------------------------
// What the filters let through
// ---------------------------------------------------------------------------------------------
/// A path is watched if and only if the watch list is empty or some prefix in it, whichever, covers
/// the path; every prefix that is added watches what it covers and takes nothing away.
pub proof fn law_any_prefix_watches(
    path: Seq<char>,
    watch: Seq<Seq<char>>,
    prefix: Seq<char>,
)
    ensures
        watched(path, Seq::empty()),
        forall|i: int|
            0 <= i < watch.len() && under(path, #[trigger] watch[i]) ==> watched(path, watch),
        watch.len() > 0 && watched(path, watch) ==> exists|i: int|
            0 <= i < watch.len() && under(path, #[trigger] watch[i]),
        watched(path, watch.push(prefix)) <==> under(path, prefix) || (watch.len() > 0 && watched(
            path,
            watch,
        )),
        watched(path, seq![prefix]) <==> under(path, prefix),
{
    let all = watch.push(prefix);
    assert(all[watch.len() as int] == prefix);
    assert(seq![prefix][0] == prefix);
    if watch.len() > 0 && watched(path, watch) {
        let i = choose|i: int| 0 <= i < watch.len() && under(path, #[trigger] watch[i]);
        assert(all[i] == watch[i]);
    }
    if watched(path, all) {
        let i = choose|i: int| 0 <= i < all.len() && under(path, #[trigger] all[i]);
        if i < watch.len() {
            assert(watch[i] == all[i]);
        }
    }
}

/// The type filter keeps the mounts of exactly that type, and all of them where it is empty.
pub proof fn law_type_filter_is_exact(mounts: Seq<MountRecord>, m: MountRecord, fstype: Seq<char>)
    ensures
        mounts.filter(|m: MountRecord| of_fstype(m.fstype, fstype)).contains(m)
            <==> mounts.contains(m) && (fstype == Seq::<char>::empty() || m.fstype == fstype),
{
    lemma_filter_membership(mounts, |m: MountRecord| of_fstype(m.fstype, fstype), m);
    if fstype.len() == 0 {
        assert(fstype =~= Seq::empty());
    }
}

/// The mounts to report on are, in order, the rows that are watched and of the wanted type.
pub proof fn law_selection_keeps_the_order(
    mounts: Seq<MountRecord>,
    m: MountRecord,
    watch: Seq<Seq<char>>,
    fstype: Seq<char>,
)
    ensures
        selected(Seq::empty(), watch, fstype) == Seq::<MountRecord>::empty(),
        selected(mounts.push(m), watch, fstype) == if watched(m.mountpoint, watch) && (
        fstype.len() == 0 || m.fstype == fstype) {
            selected(mounts, watch, fstype).push(m)
        } else {
            selected(mounts, watch, fstype)
        },
{
    reveal(Seq::filter);
    assert(mounts.push(m).drop_last() =~= mounts);
    let seen = mounts.filter(|m: MountRecord| watched(m.mountpoint, watch));
    assert(seen.push(m).drop_last() =~= seen);
}

// ---------------------------------------------------------------------------------------------
// Collapsing row by row
// ---------------------------------------------------------------------------------------------
/// One more row of the table: on a new mountpoint it comes behind the others as it is; on one that
/// is there already it takes the place of the entry, one layer deeper, and leaves every other entry
/// alone.
pub proof fn law_collapse_goes_row_by_row(mounts: Seq<MountRecord>, m: MountRecord, k: int)
    ensures
        collapsed(Seq::empty()) == Seq::<MountRecord>::empty(),
        (forall|i: int|
            0 <= i < mounts.len() ==> (#[trigger] mounts[i]).mountpoint != m.mountpoint)
            ==> collapsed(mounts.push(m)) == collapsed(mounts).push(m),
        0 <= k < collapsed(mounts).len() && collapsed(mounts)[k].mountpoint == m.mountpoint
            && depth(mounts, m.mountpoint) < u32::MAX ==> collapsed(mounts.push(m)) == collapsed(
            mounts,
        ).update(
            k,
            MountRecord { layers: (collapsed(mounts)[k].layers + 1) as u32, ..m },
        ),
{
    assert(collapsed(Seq::empty()) =~= Seq::empty());
    let next = mounts.push(m);
    let old_list = mountpoints(mounts);
    assert(next.drop_last() =~= mounts);
    assert(next.last() == m);
    lemma_mountpoints(mounts);
    law_collapse_lists_each_mountpoint_once(mounts);
    let names = collapsed(mounts).map_values(|m: MountRecord| m.mountpoint);
    assert forall|j: int|
        0 <= j < old_list.len() && old_list[j] != m.mountpoint implies stack(
        next,
        #[trigger] old_list[j],
    ) == stack(mounts, old_list[j]) by {
        assert(old_list.contains(old_list[j]));
        lemma_stack_push(mounts, m, old_list[j]);
    }
    lemma_stack_push(mounts, m, m.mountpoint);
    if forall|i: int| 0 <= i < mounts.len() ==> (#[trigger] mounts[i]).mountpoint != m.mountpoint {
        assert(!mounted_on(mounts, m.mountpoint));
        assert(stack(next, m.mountpoint) =~= m);
        assert forall|j: int| 0 <= j < old_list.len() implies #[trigger] old_list[j]
            != m.mountpoint by {
            assert(old_list.contains(old_list[j]));
        }
        assert(collapsed(next) =~= collapsed(mounts).push(m));
    }
    if 0 <= k < collapsed(mounts).len() && collapsed(mounts)[k].mountpoint == m.mountpoint
        && depth(mounts, m.mountpoint) < u32::MAX {
        assert(names[k] == m.mountpoint);
        assert(old_list[k] == m.mountpoint);
        assert(old_list.contains(old_list[k]));
        assert(mounted_on(mounts, m.mountpoint));
        assert(mountpoints(next) == old_list);
        let top = MountRecord { layers: (collapsed(mounts)[k].layers + 1) as u32, ..m };
        law_depth_is_positive(mounts, m.mountpoint);
        assert(stack(next, m.mountpoint) =~= top);
        assert(collapsed(next) =~= collapsed(mounts).update(k, top));
    }
}

/// A depth counts layers, so it is never negative.
pub proof fn law_depth_is_positive(mounts: Seq<MountRecord>, mountpoint: Seq<char>)
    ensures
        depth(mounts, mountpoint) >= 0,
        !mounted_on(mounts, mountpoint) ==> depth(mounts, mountpoint) == 0,
    decreases mounts.len(),
{
    if mounts.len() > 0 {
        let before = mounts.drop_last();
        law_depth_is_positive(before, mountpoint);
        assert(before.push(mounts.last()) =~= mounts);
        lemma_mounted_push(before, mounts.last(), mountpoint);
    }
}

// ---------------------------------------------------------------------------------------------
// Which mount a source lies on
// ---------------------------------------------------------------------------------------------
/// The mount that a source resolves through covers it, and every other mount that covers it is
/// mounted at or above that one; of several on the same mountpoint it is the last.
pub proof fn law_source_resolves_through_the_innermost_mount(
    mounts: Seq<MountRecord>,
    source: Seq<char>,
    i: int,
    j: int,
)
    requires
        resolves_through(mounts, source, i),
        0 <= j < mounts.len(),
        under(source, mounts[j].mountpoint),
    ensures
        under(source, mounts[i].mountpoint),
        mounts[i].mountpoint == mounts[j].mountpoint + mounts[i].mountpoint.skip(
            mounts[j].mountpoint.len() as int,
        ),
        mounts[j].mountpoint.len() <= mounts[i].mountpoint.len(),
        mounts[i].mountpoint == mounts[j].mountpoint ==> j <= i,
{
    let a = mounts[i].mountpoint;
    let b = mounts[j].mountpoint;
    assert(source.subrange(0, a.len() as int) == a);
    assert(source.subrange(0, b.len() as int) == b);
    assert(a =~= b + a.skip(b.len() as int)) by {
        assert forall|k: int| 0 <= k < b.len() implies #[trigger] a[k] == b[k] by {
            assert(source.subrange(0, a.len() as int)[k] == source[k]);
            assert(source.subrange(0, b.len() as int)[k] == source[k]);
        }
    }
}

/// The innermost mount that covers a source decides its health, whatever the others are; a source
/// that nothing covers is not healthy.
pub proof fn law_innermost_mount_decides(mounts: Seq<MountRecord>, source: Seq<char>, i: int)
    ensures
        0 <= i < mounts.len() && under(source, mounts[i].mountpoint) && (forall|j: int|
            0 <= j < mounts.len() && under(source, (#[trigger] mounts[j]).mountpoint)
                ==> mounts[j].mountpoint.len() < mounts[i].mountpoint.len()
                || mounts[j].mountpoint.len() == mounts[i].mountpoint.len() && j <= i) ==> (
        source_healthy(mounts, source) <==> mounts[i].health == Some("ok"@)),
        (forall|j: int|
            0 <= j < mounts.len() ==> !under(source, (#[trigger] mounts[j]).mountpoint))
            ==> !source_healthy(mounts, source),
{
    if 0 <= i < mounts.len() && under(source, mounts[i].mountpoint) && (forall|j: int|
        0 <= j < mounts.len() && under(source, (#[trigger] mounts[j]).mountpoint)
            ==> mounts[j].mountpoint.len() < mounts[i].mountpoint.len()
            || mounts[j].mountpoint.len() == mounts[i].mountpoint.len() && j <= i) {
        assert(resolves_through(mounts, source, i));
        law_covered_source_resolves_once(mounts, source, i);
    }
}

/// The verdicts go to the mounts one by one: each mount keeps all but its health, the first verdict
/// is that of the first mount and so on, and a mount without a verdict stays as it is.
pub proof fn law_verdicts_go_mount_by_mount(
    mounts: Seq<MountRecord>,
    verdicts: Seq<Health>,
    i: int,
)
    requires
        0 <= i < mounts.len(),
    ensures
        probed(mounts, verdicts).len() == mounts.len(),
        probed(mounts, verdicts)[i].device == mounts[i].device,
        probed(mounts, verdicts)[i].mountpoint == mounts[i].mountpoint,
        probed(mounts, verdicts)[i].fstype == mounts[i].fstype,
        probed(mounts, verdicts)[i].layers == mounts[i].layers,
        i < verdicts.len() ==> probed(mounts, verdicts)[i].health == Some(verdict(verdicts[i])),
        i >= verdicts.len() ==> probed(mounts, verdicts)[i].health == mounts[i].health,
{
}

/// Every probe has its word.
pub proof fn law_verdicts(health: Health)
    ensures
        verdict(Health::Live) == "ok"@,
        verdict(Health::Error) == "error: probe failed"@,
        health != Health::Live && health != Health::Error ==> verdict(health) == "stale"@,
{
}

} // verus!
