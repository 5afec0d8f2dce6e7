//! What the contracts speak of is what the values hold: each part of a view is the part of that
//! name, none is left out and none is exchanged for another.
use vstd::prelude::*;
use vstd::string::*;

use crate::backend::{
    MountOutcome, MountSpec, NormalizedSpec, OptionSet, RecoverOutcome, Share,
};
use crate::command::{CommandLine, RemountAction, RemountStep};
use crate::error::maybe;
use crate::exports::ExportEntry;
use crate::fstab::FstabEntry;
use crate::mounts::Mount;
use crate::options::{NfsOptions, OptionToken};
use crate::recover::{
    ConsumerRecoverResult, RecoverAction, RecoverResult, RecoverStep,
};
use crate::release::{DrainAction, DrainReport, MountLayers, Pending, ReleaseFailure};
use crate::text::{maybe_text, views};

verus! {

/// The views of a list are those of its items, one for each and in order; those of a list with one
/// more item end with the view of that item.
pub proof fn law_lists_are_seen_item_by_item<T: View>(items: Seq<T>, t: T, i: int)
    ensures
        views(items).len() == items.len(),
        0 <= i < items.len() ==> views(items)[i] == items[i]@,
        views(items.push(t)) == views(items).push(t@),
{
    assert(views(items.push(t)) =~= views(items).push(t@));
}

/// What may be absent is seen where it is there.
pub proof fn law_optional_values_are_seen<T: View>(t: T, text: &str)
    ensures
        maybe(Some(t)) == Some(t@),
        maybe(None::<T>) == None::<T::V>,
        maybe_text(Some(text)) == Some(text@),
        maybe_text(None) == None::<Seq<char>>,
{
}

/// The rows of the tables.
pub proof fn law_rows_are_seen_whole(m: Mount, f: FstabEntry, e: ExportEntry)
    ensures
        m@.device == m.device@,
        m@.mountpoint == m.mountpoint@,
        m@.fstype == m.fstype@,
        m@.health == maybe(m.health),
        m@.layers == m.layers,
        f@.device == f.device@,
        f@.mountpoint == f.mountpoint@,
        f@.fstype == f.fstype@,
        f@.automount == f.automount,
        e@.path == e.path@,
        e@.allowed_clients == views(e.allowed_clients@),
        e@.options == views(e.options@),
        e@.fsid == maybe(e.fsid),
{
}

/// The options and their tokens.
pub proof fn law_options_are_seen_whole(o: NfsOptions, t: OptionToken)
    ensures
        o@.vers == maybe(o.vers),
        o@.hard == o.hard,
        o@.soft == o.soft,
        o@.timeo == o.timeo,
        o@.retrans == o.retrans,
        o@.actimeo == o.actimeo,
        o@.rsize == o.rsize,
        o@.wsize == o.wsize,
        o@.netdev == o.netdev,
        o@.extra == views(o.extra@),
        t@.key == t.key@,
        t@.value == maybe(t.value),
{
}

/// Declared and normalized specs.
pub proof fn law_specs_are_seen_whole<C, P>(
    s: MountSpec<C, P>,
    n: NormalizedSpec<C, P>,
    options: Option<String>,
)
    ensures
        s@.backend == s.backend@,
        s@.target == s.target@,
        s@.fstype == s.fstype@,
        s@.source == s.source@,
        s@.failover_sources == views(s.failover_sources@),
        s@.options == maybe(s.options),
        s@.enabled == s.enabled,
        n@.backend == n.backend@,
        n@.target == n.target@,
        n@.fstype == n.fstype@,
        n@.source == n.source@,
        n@.failover_sources == views(n.failover_sources@),
        n@.options == n.options@,
        n@.secret_file == maybe(n.secret_file),
        n@.enabled == n.enabled,
        (OptionSet::Raw { options })@ == maybe(options),
{
}

/// The answers of the backend.
pub proof fn law_answers_are_seen_whole(s: Share, o: MountOutcome, r: RecoverOutcome)
    ensures
        s@.id == s.id@,
        s@.source == s.source@,
        s@.target == maybe(s.target),
        s@.fstype == s.fstype@,
        s@.mounted == s.mounted,
        o@.target == o.target@,
        o@.mounted == o.mounted,
        o@.recovered == o.recovered,
        o@.detail == maybe(o.detail),
        r@.recovered == views(r.recovered@),
        r@.still_stale == views(r.still_stale@),
        r@.remounted == views(r.remounted@),
        r@.still_missing == views(r.still_missing@),
        r@.errors == views(r.errors@),
        r@.no_stale_found == r.no_stale_found,
{
}

/// The results of a recovery.
pub proof fn law_recoveries_are_seen_whole(r: RecoverResult, c: ConsumerRecoverResult)
    ensures
        r@.recovered == views(r.recovered@),
        r@.still_stale == views(r.still_stale@),
        r@.errors == views(r.errors@),
        r@.no_stale_found == r.no_stale_found,
        r@.remounted == views(r.remounted@),
        r@.still_missing == views(r.still_missing@),
        r@.unmanaged == views(r.unmanaged@),
        r@.consumers == maybe(r.consumers),
        c@.recovered == views(c.recovered@),
        c@.still_stale == views(c.still_stale@),
        c@.skipped_host_stale == views(c.skipped_host_stale@),
        c@.errors == views(c.errors@),
{
}

/// The reports of a release.
pub proof fn law_reports_are_seen_whole(d: DrainReport, l: MountLayers, f: ReleaseFailure)
    ensures
        d@.mountpoint == d.mountpoint@,
        d@.popped == d.popped,
        d.outcome is Ok ==> d@.outcome == Ok::<(), Seq<char>>(()),
        d.outcome matches Err(e) ==> d@.outcome == Err::<(), Seq<char>>(e@),
        l@ == (l.mountpoint@, l.layers),
        f@ == (f.mountpoint@, f.error@),
{
}

/// What is to be done next.
pub proof fn law_actions_are_seen_whole(
    a: RecoverAction,
    d: DrainAction,
    r: RemountAction,
    c: CommandLine,
)
    ensures
        c@.program == c.program@,
        c@.args == views(c.args@),
        a matches RecoverAction::Remount(e) ==> a@ == RecoverStep::Remount(e@),
        a matches RecoverAction::Release(m) ==> a@ == RecoverStep::Release(m@),
        a matches RecoverAction::Probe(p) ==> a@ == RecoverStep::Probe(p@),
        a is List <==> a@ is List,
        a is ReadFstab <==> a@ is ReadFstab,
        a is MountAll <==> a@ is MountAll,
        a is Finish <==> a@ is Finish,
        d is ReadTable <==> d@ is ReadTable,
        d is Umount <==> d@ is Umount,
        d matches DrainAction::Finish(Ok(())) ==> d@ == Pending::Finish(Ok(())),
        d matches DrainAction::Finish(Err(e)) ==> d@ == Pending::Finish(Err(e@)),
        r matches RemountAction::Escape(line) ==> r@ == RemountStep::Escape(line@),
        r matches RemountAction::Reset(line) ==> r@ == RemountStep::Reset(line@),
        r matches RemountAction::Mount(line) ==> r@ == RemountStep::Mount(line@),
        r matches RemountAction::Finish(Ok(())) ==> r@ == RemountStep::Finish(Ok(())),
        r matches RemountAction::Finish(Err(e)) ==> r@ == RemountStep::Finish(Err(e.message())),
{
}

} // verus!
