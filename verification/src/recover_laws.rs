//! What holds of every recovery.
use vstd::prelude::*;
use vstd::seq_lib::*;

use crate::filtering::{
    lemma_filter_all, lemma_filter_len, lemma_filter_membership, lemma_filter_subset,
};
use crate::fstab::{FstabRecord, declares};
use crate::mounts::{Health, MountRecord, verdict};
use crate::recover::{
    History, RecoverEvent, RecoverRecord, RecoverStep, begun, empty_record,
    lemma_remounts_counted, listing_errors, managed, next_action, possible, probe_errors,
    probe_line, probed_places, recorded, refusal, release_line, remount_errors, remount_places,
    replies, report, stale, unprobed, withheld,
};
use crate::release::sole_target;
use crate::table_laws::law_declared_means_an_entry_of_its_own;
use crate::text::views;

verus! {

/// The history of a recovery after these answers.
pub open spec fn recovery_after(
    missing: Seq<FstabRecord>,
    events: Seq<RecoverEvent>,
) -> History
    decreases events.len(),
{
    if events.len() == 0 {
        begun(missing)
    } else {
        recorded(recovery_after(missing, events.drop_last()), events.last())
    }
}

/// Every answer was one to what was to be done.
pub open spec fn recovery_trace(missing: Seq<FstabRecord>, events: Seq<RecoverEvent>) -> bool {
    forall|i: int|
        0 <= i < events.len() ==> replies(
            #[trigger] events[i],
            next_action(recovery_after(missing, events.take(i))),
        )
}

/// How many answers a history holds.
pub open spec fn answered(h: History) -> int {
    h.remounts.len() + h.releases.len() + h.probes.len() + (if h.listed is Some {
        1int
    } else {
        0
    }) + (if h.declared is Some {
        1int
    } else {
        0
    }) + (if h.mounted_all is Some {
        1int
    } else {
        0
    })
}

proof fn lemma_trace_prefix(missing: Seq<FstabRecord>, events: Seq<RecoverEvent>)
    requires
        events.len() > 0,
        recovery_trace(missing, events),
    ensures
        recovery_trace(missing, events.drop_last()),
        replies(events.last(), next_action(recovery_after(missing, events.drop_last()))),
{
    let before = events.drop_last();
    assert forall|i: int| 0 <= i < before.len() implies replies(
        #[trigger] before[i],
        next_action(recovery_after(missing, before.take(i))),
    ) by {
        assert(before[i] == events[i]);
        assert(before.take(i) =~= events.take(i));
    }
    assert(events.take(events.len() - 1) =~= before);
    assert(events[events.len() - 1] == events.last());
}

/// One answer keeps what went before, and leads to a possible history again.
proof fn lemma_step(h: History, event: RecoverEvent)
    requires
        possible(h),
        replies(event, next_action(h)),
    ensures
        possible(recorded(h, event)),
        answered(recorded(h, event)) == answered(h) + 1,
        recorded(h, event).missing == h.missing,
{
    reveal(Seq::filter);
    let after = recorded(h, event);
    if h.declared is Some {
        assert(managed(after) == managed(h));
    } else {
        assert(managed(h) =~= Seq::empty());
    }
}

/// Whatever the host answers, a recovery comes to an end: it remounts each missing mount once,
/// lists once, reads fstab once, releases each managed mount once, mounts everything once, and
/// probes each managed mount once.
pub proof fn law_recovery_is_bounded(missing: Seq<FstabRecord>, events: Seq<RecoverEvent>)
    requires
        recovery_trace(missing, events),
    ensures
        ({
            let h = recovery_after(missing, events);
            &&& possible(h)
            &&& h.missing == missing
            &&& events.len() == answered(h)
            &&& events.len() <= missing.len() + 2 * stale(h).len() + 3
        }),
    decreases events.len(),
{
    let h = recovery_after(missing, events);
    if events.len() > 0 {
        lemma_trace_prefix(missing, events);
        law_recovery_is_bounded(missing, events.drop_last());
        lemma_step(recovery_after(missing, events.drop_last()), events.last());
    }
    if h.declared is Some {
        let entries = h.declared->Some_0;
        lemma_filter_subset(stale(h), |m: MountRecord| declares(entries, m.mountpoint));
    }
}

/// Where the recovery comes to its end, everything it set out to do has been answered.
pub proof fn law_finished_means_everything_was_answered(h: History)
    requires
        possible(h),
        next_action(h) is Finish,
        h.listed->Some_0 is Ok,
    ensures
        h.listed is Some,
        h.remounts.len() == h.missing.len(),
        h.declared is Some,
        h.releases.len() == managed(h).len(),
        h.mounted_all is Some <==> managed(h).len() > 0,
        h.probes.len() == managed(h).len(),
{
}

/// A managed mount was listed, probed stale, and is declared.
proof fn lemma_managed(h: History, i: int)
    requires
        0 <= i < managed(h).len(),
    ensures
        h.listed is Some,
        h.listed->Some_0 is Ok,
        h.listed->Some_0->Ok_0.contains(managed(h)[i]),
        managed(h)[i].health == Some("stale"@),
        h.declared is Some,
        declares(h.declared->Some_0, managed(h)[i].mountpoint),
{
    let entries = h.declared->Some_0;
    lemma_filter_subset(stale(h), |m: MountRecord| declares(entries, m.mountpoint));
    let m = managed(h)[i];
    let j = choose|j: int| 0 <= j < stale(h).len() && stale(h)[j] == m;
    let mounts = h.listed->Some_0->Ok_0;
    lemma_filter_subset(mounts, |m: MountRecord| m.health == Some("stale"@));
}

/// Only a mount that was listed, that probed stale and that fstab declares is ever released; and
/// releasing it unmounts no mountpoint that fstab does not declare, whatever the mount table holds
/// by then.
pub proof fn law_only_declared_stale_mounts_are_released(
    h: History,
    m: MountRecord,
    table: Seq<MountRecord>,
    fstype: Seq<char>,
    target: Seq<char>,
)
    requires
        next_action(h) == RecoverStep::Release(m),
        sole_target(table, m.device, m.mountpoint, fstype).contains(target),
    ensures
        h.listed->Some_0->Ok_0.contains(m),
        m.health == Some("stale"@),
        declares(h.declared->Some_0, m.mountpoint),
        declares(h.declared->Some_0, target),
        target == m.mountpoint,
        h.declared->Some_0.map_values(|e: FstabRecord| e.mountpoint).contains(m.mountpoint),
{
    lemma_managed(h, h.releases.len() as int);
    law_declared_means_an_entry_of_its_own(h.declared->Some_0, m.mountpoint);
}

/// A stale mount that fstab does not declare is withheld: it is reported with the reason, it is
/// never released, and the result does not read as a clean bill of health.
pub proof fn law_undeclared_stale_mounts_are_withheld(h: History, i: int)
    requires
        h.declared is Some,
        0 <= i < stale(h).len(),
        !declares(h.declared->Some_0, stale(h)[i].mountpoint),
    ensures
        report(h).unmanaged.contains(stale(h)[i].mountpoint),
        report(h).errors.contains(refusal(stale(h)[i].mountpoint)),
        !report(h).no_stale_found,
        !managed(h).contains(stale(h)[i]),
        next_action(h) != RecoverStep::Release(stale(h)[i]),
{
    let entries = h.declared->Some_0;
    let m = stale(h)[i];
    lemma_filter_membership(stale(h), |m: MountRecord| !declares(entries, m.mountpoint), m);
    let j = choose|j: int| 0 <= j < withheld(h).len() && withheld(h)[j] == m;
    assert(report(h).unmanaged[j] == m.mountpoint);
    let first = remount_errors(h.remounts) + listing_errors(h);
    assert(report(h).errors[first.len() + j] == refusal(m.mountpoint));
    if managed(h).contains(m) {
        let k = choose|k: int| 0 <= k < managed(h).len() && managed(h)[k] == m;
        lemma_managed(h, k);
    }
    if next_action(h) == RecoverStep::Release(m) {
        assert(managed(h).contains(m));
    }
}

/// An fstab that could not be read declares nothing: every stale mount is withheld, nothing is
/// released, and the recovery is over.
pub proof fn law_unreadable_fstab_withholds_everything(h: History)
    requires
        possible(h),
        next_action(h) is ReadFstab,
    ensures
        ({
            let after = recorded(h, RecoverEvent::Fstab(None));
            &&& managed(after).len() == 0
            &&& withheld(after) == stale(h)
            &&& report(after).unmanaged == stale(h).map_values(|m: MountRecord| m.mountpoint)
            &&& next_action(after) is Finish
        }),
{
    let after = recorded(h, RecoverEvent::Fstab(None));
    let none: Seq<FstabRecord> = Seq::empty();
    assert(stale(after) == stale(h));
    lemma_filter_all(stale(h), |m: MountRecord| !declares(none, m.mountpoint));
    lemma_filter_len(
        stale(h),
        |m: MountRecord| declares(none, m.mountpoint),
        |m: MountRecord| !declares(none, m.mountpoint),
    );
}

/// A recovery that ended with a table to look at reports that there was nothing to do if and only
/// if nothing was missing and nothing stale; beside that the report then holds only the mounts
/// whose probe failed.
pub proof fn law_clean_bill_of_health(h: History)
    requires
        possible(h),
        next_action(h) is Finish,
        h.listed->Some_0 is Ok,
    ensures
        report(h).no_stale_found <==> h.missing.len() == 0 && stale(h).len() == 0,
        report(h).no_stale_found ==> report(h) == (RecoverRecord {
            no_stale_found: true,
            errors: listing_errors(h),
            ..empty_record()
        }),
{
    if report(h).no_stale_found {
        let entries = h.declared->Some_0;
        lemma_filter_subset(stale(h), |m: MountRecord| declares(entries, m.mountpoint));
        lemma_filter_subset(stale(h), |m: MountRecord| !declares(entries, m.mountpoint));
        assert(report(h) =~= (RecoverRecord {
            no_stale_found: true,
            errors: listing_errors(h),
            ..empty_record()
        }));
    }
}

/// A listed mount whose probe failed is among the errors.
pub proof fn law_failed_probes_of_the_listing_are_reported(h: History, m: MountRecord)
    requires
        h.listed is Some,
        h.listed->Some_0 is Ok,
        h.listed->Some_0->Ok_0.contains(m),
        m.health == Some(verdict(Health::Error)),
    ensures
        report(h).errors.contains(probe_line(m.mountpoint)),
{
    let mounts = h.listed->Some_0->Ok_0;
    lemma_filter_membership(
        mounts,
        |m: MountRecord| m.health == Some(verdict(Health::Error)),
        m,
    );
    let k = choose|k: int| 0 <= k < unprobed(h).len() && unprobed(h)[k] == m;
    let first = remount_errors(h.remounts);
    assert(listing_errors(h)[k] == probe_line(m.mountpoint));
    assert(report(h).errors[first.len() + k] == probe_line(m.mountpoint));
}

/// Every stale mount is either managed or withheld.
pub proof fn law_stale_mounts_are_managed_or_withheld(h: History)
    requires
        h.declared is Some,
    ensures
        managed(h).len() + withheld(h).len() == stale(h).len(),
        report(h).unmanaged.len() == withheld(h).len(),
{
    let entries = h.declared->Some_0;
    lemma_filter_len(
        stale(h),
        |m: MountRecord| declares(entries, m.mountpoint),
        |m: MountRecord| !declares(entries, m.mountpoint),
    );
}

proof fn lemma_remount_places(
    missing: Seq<FstabRecord>,
    remounts: Seq<Result<(), Seq<char>>>,
    success: bool,
)
    ensures
        forall|i: int|
            0 <= i < remounts.len() && ((#[trigger] remounts[i]) is Ok) == success
                ==> remount_places(missing, remounts, success).contains(missing[i].mountpoint),
    decreases remounts.len(),
{
    if remounts.len() > 0 {
        let before = remounts.drop_last();
        lemma_remount_places(missing, before, success);
        let places = remount_places(missing, remounts, success);
        let held = remount_places(missing, before, success);
        assert forall|i: int|
            0 <= i < remounts.len() && ((#[trigger] remounts[i]) is Ok)
                == success implies places.contains(missing[i].mountpoint) by {
            if i < before.len() {
                assert(before[i] == remounts[i]);
                let k = choose|k: int| 0 <= k < held.len() && held[k] == missing[i].mountpoint;
                assert(places[k] == missing[i].mountpoint);
            } else {
                assert(places[held.len() as int] == missing[i].mountpoint);
            }
        }
    }
}

/// Once the missing mounts are through, each of them is reported once: as remounted, or as still
/// missing and then with an error.
pub proof fn law_every_missing_mount_is_reported(h: History)
    requires
        h.remounts.len() == h.missing.len(),
    ensures
        report(h).remounted.len() + report(h).still_missing.len() == h.missing.len(),
        remount_errors(h.remounts).len() == report(h).still_missing.len(),
        forall|i: int|
            0 <= i < h.missing.len() ==> if h.remounts[i] is Ok {
                report(h).remounted.contains((#[trigger] h.missing[i]).mountpoint)
            } else {
                report(h).still_missing.contains(h.missing[i].mountpoint)
            },
{
    lemma_remounts_counted(h.missing, h.remounts);
    lemma_remount_places(h.missing, h.remounts, true);
    lemma_remount_places(h.missing, h.remounts, false);
    assert forall|i: int| 0 <= i < h.missing.len() implies if h.remounts[i] is Ok {
        report(h).remounted.contains((#[trigger] h.missing[i]).mountpoint)
    } else {
        report(h).still_missing.contains(h.missing[i].mountpoint)
    } by {
        let outcome = h.remounts[i];
        assert((outcome is Ok) == true || (outcome is Ok) == false);
    }
}

proof fn lemma_probed_places(mounts: Seq<MountRecord>, probes: Seq<Health>, healthy: bool)
    ensures
        forall|i: int|
            0 <= i < probes.len() && ((#[trigger] probes[i]) == Health::Live) == healthy
                ==> probed_places(mounts, probes, healthy).contains(mounts[i].mountpoint),
    decreases probes.len(),
{
    if probes.len() > 0 {
        let before = probes.drop_last();
        lemma_probed_places(mounts, before, healthy);
        let places = probed_places(mounts, probes, healthy);
        let held = probed_places(mounts, before, healthy);
        assert forall|i: int|
            0 <= i < probes.len() && ((#[trigger] probes[i]) == Health::Live)
                == healthy implies places.contains(mounts[i].mountpoint) by {
            if i < before.len() {
                assert(before[i] == probes[i]);
                let k = choose|k: int| 0 <= k < held.len() && held[k] == mounts[i].mountpoint;
                assert(places[k] == mounts[i].mountpoint);
            } else {
                assert(places[held.len() as int] == mounts[i].mountpoint);
            }
        }
    }
}

proof fn lemma_probed_count(mounts: Seq<MountRecord>, probes: Seq<Health>)
    ensures
        probed_places(mounts, probes, true).len() + probed_places(mounts, probes, false).len()
            == probes.len(),
    decreases probes.len(),
{
    if probes.len() > 0 {
        lemma_probed_count(mounts, probes.drop_last());
    }
}

proof fn lemma_probe_errors(mounts: Seq<MountRecord>, probes: Seq<Health>)
    ensures
        forall|i: int|
            0 <= i < probes.len() && #[trigger] probes[i] == Health::Error ==> probe_errors(
                mounts,
                probes,
            ).contains(probe_line(mounts[i].mountpoint)),
    decreases probes.len(),
{
    if probes.len() > 0 {
        let before = probes.drop_last();
        lemma_probe_errors(mounts, before);
        let lines = probe_errors(mounts, probes);
        let held = probe_errors(mounts, before);
        assert forall|i: int|
            0 <= i < probes.len() && #[trigger] probes[i] == Health::Error implies lines.contains(
            probe_line(mounts[i].mountpoint),
        ) by {
            let line = probe_line(mounts[i].mountpoint);
            if i < before.len() {
                assert(before[i] == probes[i]);
                let k = choose|k: int| 0 <= k < held.len() && held[k] == line;
                assert(lines[k] == line);
            } else {
                assert(lines[held.len() as int] == line);
            }
        }
    }
}

/// Where the recovery has ended, each managed mount is reported once: as recovered if and only if
/// it probes live now, and as still stale otherwise; a probe that failed is among the errors.
pub proof fn law_every_managed_mount_is_reported(h: History)
    requires
        possible(h),
        next_action(h) is Finish,
        h.listed->Some_0 is Ok,
    ensures
        report(h).recovered.len() + report(h).still_stale.len() == managed(h).len(),
        forall|i: int|
            0 <= i < managed(h).len() ==> if h.probes[i] == Health::Live {
                report(h).recovered.contains((#[trigger] managed(h)[i]).mountpoint)
            } else {
                report(h).still_stale.contains(managed(h)[i].mountpoint)
            },
        forall|i: int|
            0 <= i < managed(h).len() && h.probes[i] == Health::Error ==> report(
                h,
            ).errors.contains(probe_line((#[trigger] managed(h)[i]).mountpoint)),
{
    lemma_probe_errors(managed(h), h.probes);
    assert forall|i: int| 0 <= i < managed(h).len() && h.probes[i] == Health::Error implies report(
        h,
    ).errors.contains(probe_line((#[trigger] managed(h)[i]).mountpoint)) by {
        let lines = probe_errors(managed(h), h.probes);
        let line = probe_line(managed(h)[i].mountpoint);
        let failed = h.probes[i];
        assert(lines.contains(line));
        let k = choose|k: int| 0 <= k < lines.len() && lines[k] == line;
        let errors = report(h).errors;
        assert(errors[errors.len() - lines.len() + k] == line);
    }
    lemma_probed_count(managed(h), h.probes);
    lemma_probed_places(managed(h), h.probes, true);
    lemma_probed_places(managed(h), h.probes, false);
    assert forall|i: int| 0 <= i < managed(h).len() implies if h.probes[i] == Health::Live {
        report(h).recovered.contains((#[trigger] managed(h)[i]).mountpoint)
    } else {
        report(h).still_stale.contains(managed(h)[i].mountpoint)
    } by {
        let health = h.probes[i];
        assert((health == Health::Live) == true || (health == Health::Live) == false);
    }
}

/// A failed remount, a failed release, a failed `mount -a` or a bad probe does not stop a recovery:
/// the next step and the mounts to recover are the same as if it had gone well.
pub proof fn law_step_failures_do_not_stop_the_recovery(
    h: History,
    good: RecoverEvent,
    bad: RecoverEvent,
)
    requires
        possible(h),
        replies(good, next_action(h)),
        replies(bad, next_action(h)),
        !(next_action(h) is List),
        !(next_action(h) is ReadFstab),
    ensures
        next_action(recorded(h, good)) == next_action(recorded(h, bad)),
        managed(recorded(h, good)) == managed(recorded(h, bad)),
{
    let a = recorded(h, good);
    let b = recorded(h, bad);
    assert(managed(a) == managed(h));
    assert(managed(b) == managed(h));
}

// ---------------------------------------------------------------------------------------------
// Step by step
// ---------------------------------------------------------------------------------------------
/// What is done next, told by what has been answered: the missing mounts one after the other, then
/// the listing, then fstab, and with something to recover the releases one after the other, one
/// `mount -a`, and the probes one after the other.
pub proof fn law_order_of_the_steps(h: History)
    requires
        possible(h),
    ensures
        h.remounts.len() < h.missing.len() ==> next_action(h) == RecoverStep::Remount(
            h.missing[h.remounts.len() as int],
        ),
        h.remounts.len() == h.missing.len() && h.listed is None ==> next_action(h)
            == RecoverStep::List,
        h.listed matches Some(Err(_)) ==> next_action(h) == RecoverStep::Finish,
        h.listed matches Some(Ok(_)) && h.declared is None ==> next_action(h)
            == RecoverStep::ReadFstab,
        h.declared is Some && h.releases.len() < managed(h).len() ==> next_action(h)
            == RecoverStep::Release(managed(h)[h.releases.len() as int]),
        managed(h).len() > 0 && h.releases.len() == managed(h).len() && h.mounted_all is None
            ==> next_action(h) == RecoverStep::MountAll,
        h.mounted_all is Some && h.probes.len() < managed(h).len() ==> next_action(h)
            == RecoverStep::Probe(managed(h)[h.probes.len() as int].mountpoint),
        h.declared is Some && managed(h).len() == 0 ==> next_action(h) == RecoverStep::Finish,
        h.mounted_all is Some && h.probes.len() == managed(h).len() ==> next_action(h)
            == RecoverStep::Finish,
{
}

/// What can have been answered keeps to that order: nothing is listed before every missing mount
/// was tried, nothing is mounted again before every release was tried, and nothing is probed again
/// before that.
pub proof fn law_answers_keep_the_order(h: History)
    requires
        possible(h),
    ensures
        h.remounts.len() <= h.missing.len(),
        h.listed is Some ==> h.remounts.len() == h.missing.len(),
        h.declared is Some ==> h.listed matches Some(Ok(_)),
        h.releases.len() > 0 ==> h.declared is Some,
        h.mounted_all is Some ==> h.releases.len() == managed(h).len(),
        h.probes.len() > 0 ==> h.mounted_all is Some,
{
}

/// The mounts of one more row of the listing: stale ones are managed where fstab has an entry with
/// that very mountpoint and withheld where it has none; a failed probe is neither; and every other
/// mount is left out.
pub proof fn law_listing_is_sorted_row_by_row(
    h: History,
    mounts: Seq<MountRecord>,
    m: MountRecord,
    entries: Seq<FstabRecord>,
)
    ensures
        ({
            let a = History { listed: Some(Ok(mounts)), declared: Some(entries), ..h };
            let b = History { listed: Some(Ok(mounts.push(m))), declared: Some(entries), ..h };
            let own = entries.map_values(|e: FstabRecord| e.mountpoint).contains(m.mountpoint);
            let is_stale = m.health == Some("stale"@);
            &&& stale(b) == if is_stale {
                stale(a).push(m)
            } else {
                stale(a)
            }
            &&& managed(b) == if is_stale && own {
                managed(a).push(m)
            } else {
                managed(a)
            }
            &&& withheld(b) == if is_stale && !own {
                withheld(a).push(m)
            } else {
                withheld(a)
            }
            &&& unprobed(b) == if m.health == Some("error: probe failed"@) {
                unprobed(a).push(m)
            } else {
                unprobed(a)
            }
        }),
        ({
            let none = History { listed: Some(Ok(Seq::empty())), declared: Some(entries), ..h };
            &&& stale(none).len() == 0
            &&& managed(none).len() == 0
            &&& withheld(none).len() == 0
            &&& unprobed(none).len() == 0
        }),
{
    reveal(Seq::filter);
    law_declared_means_an_entry_of_its_own(entries, m.mountpoint);
    let a = History { listed: Some(Ok(mounts)), declared: Some(entries), ..h };
    assert(mounts.push(m).drop_last() =~= mounts);
    assert(stale(a).push(m).drop_last() =~= stale(a));
}

/// Each answer is recorded as it came, in the place for answers of its kind, and changes nothing
/// that was answered before. An fstab that could not be read declares nothing.
pub proof fn law_each_answer_is_recorded(h: History, event: RecoverEvent)
    ensures
        ({
            let after = recorded(h, event);
            &&& after.missing == h.missing
            &&& event !is Remounted ==> after.remounts == h.remounts
            &&& event !is Listed ==> after.listed == h.listed
            &&& event !is Fstab ==> after.declared == h.declared
            &&& event !is Released ==> after.releases == h.releases
            &&& event !is MountedAll ==> after.mounted_all == h.mounted_all
            &&& event !is Probed ==> after.probes == h.probes
            &&& event matches RecoverEvent::Remounted(Ok(())) ==> after.remounts
                == h.remounts.push(Ok(()))
            &&& event matches RecoverEvent::Remounted(Err(e)) ==> after.remounts
                == h.remounts.push(Err(e.message()))
            &&& event matches RecoverEvent::Listed(Ok(mounts)) ==> after.listed == Some(
                Ok::<Seq<MountRecord>, Seq<char>>(views(mounts@)),
            )
            &&& event matches RecoverEvent::Listed(Err(e)) ==> after.listed == Some(
                Err::<Seq<MountRecord>, Seq<char>>(e.message()),
            )
            &&& event matches RecoverEvent::Fstab(Some(entries)) ==> after.declared == Some(
                views(entries@),
            )
            &&& event matches RecoverEvent::Fstab(None) ==> after.declared == Some(
                Seq::<FstabRecord>::empty(),
            )
            &&& event matches RecoverEvent::Released(Ok(r)) ==> after.releases == h.releases.push(
                Ok(views(r.failed@)),
            )
            &&& event matches RecoverEvent::Released(Err(e)) ==> after.releases
                == h.releases.push(Err(e.message()))
            &&& event matches RecoverEvent::MountedAll(Ok(())) ==> after.mounted_all == Some(
                Ok::<(), Seq<char>>(()),
            )
            &&& event matches RecoverEvent::MountedAll(Err(e)) ==> after.mounted_all == Some(
                Err::<(), Seq<char>>(e.message()),
            )
            &&& event matches RecoverEvent::Probed(health) ==> after.probes == h.probes.push(
                health,
            )
        }),
{
}

/// A recovery begins with the missing mounts and nothing else: nothing is answered, nothing is
/// reported, and nothing counts as stale.
pub proof fn law_recovery_begins_empty(missing: Seq<FstabRecord>)
    ensures
        ({
            let h = begun(missing);
            let r = report(h);
            &&& h.missing == missing
            &&& h.remounts.len() == 0 && h.listed is None && h.declared is None
            &&& h.releases.len() == 0 && h.mounted_all is None && h.probes.len() == 0
            &&& r.recovered.len() == 0 && r.still_stale.len() == 0 && r.errors.len() == 0
            &&& r.remounted.len() == 0 && r.still_missing.len() == 0 && r.unmanaged.len() == 0
            &&& r.consumers is None && !r.no_stale_found
            &&& stale(h).len() == 0
        }),
{
    reveal(Seq::filter);
}

/// An answer fits what is to be done exactly where it is of that kind, and nothing fits the end.
pub proof fn law_answers_fit_what_was_asked(event: RecoverEvent, step: RecoverStep)
    ensures
        replies(event, step) <==> (step is Remount && event is Remounted) || (step is List
            && event is Listed) || (step is ReadFstab && event is Fstab) || (step is Release
            && event is Released) || (step is MountAll && event is MountedAll) || (step is Probe
            && event is Probed),
{
}

/// What each answer adds to the report. A remount adds its mountpoint, and its message where it
/// failed; the listing adds a line for each probe that failed; fstab adds the mounts withheld, each
/// with the reason, and the verdict on the whole; a release adds a line for each mountpoint that it
/// failed on, or one for itself; `mount -a` adds its message; a probe adds its mountpoint, and a
/// line where it failed. Nothing that was reported changes.
pub proof fn law_report_grows_answer_by_answer(h: History, event: RecoverEvent)
    requires
        possible(h),
        replies(event, next_action(h)),
    ensures
        ({
            let a = report(h);
            let b = report(recorded(h, event));
            match event {
                RecoverEvent::Remounted(Ok(())) => b == (RecoverRecord {
                    remounted: a.remounted.push(h.missing[h.remounts.len() as int].mountpoint),
                    ..a
                }),
                RecoverEvent::Remounted(Err(e)) => b == (RecoverRecord {
                    still_missing: a.still_missing.push(
                        h.missing[h.remounts.len() as int].mountpoint,
                    ),
                    errors: a.errors.push(e.message()),
                    ..a
                }),
                RecoverEvent::Listed(Ok(mounts)) => b == (RecoverRecord {
                    errors: a.errors + views(mounts@).filter(
                        |m: MountRecord| m.health == Some("error: probe failed"@),
                    ).map_values(
                        |m: MountRecord|
                            "probe "@ + m.mountpoint + ": "@ + "error: probe failed"@,
                    ),
                    ..a
                }),
                RecoverEvent::Listed(Err(_)) => b == a,
                RecoverEvent::Fstab(entries) => b == (RecoverRecord {
                    unmanaged: withheld(recorded(h, event)).map_values(
                        |m: MountRecord| m.mountpoint,
                    ),
                    errors: a.errors + withheld(recorded(h, event)).map_values(
                        |m: MountRecord|
                            m.mountpoint
                                + ": stale but not declared in /etc/fstab; refusing to release (mount -a could not restore it)"@,
                    ),
                    no_stale_found: h.missing.len() == 0 && stale(h).len() == 0,
                    ..a
                }),
                RecoverEvent::Released(Ok(r)) => b == (RecoverRecord {
                    errors: a.errors + views(r.failed@).map_values(
                        |f: (Seq<char>, Seq<char>)| "release "@ + f.0 + ": "@ + f.1,
                    ),
                    ..a
                }),
                RecoverEvent::Released(Err(e)) => b == (RecoverRecord {
                    errors: a.errors.push(
                        "release "@ + managed(h)[h.releases.len() as int].mountpoint + ": "@
                            + e.message(),
                    ),
                    ..a
                }),
                RecoverEvent::MountedAll(Ok(())) => b == a,
                RecoverEvent::MountedAll(Err(e)) => b == (RecoverRecord {
                    errors: a.errors.push(e.message()),
                    ..a
                }),
                RecoverEvent::Probed(health) => {
                    let place = managed(h)[h.probes.len() as int].mountpoint;
                    b == if health == Health::Live {
                        RecoverRecord { recovered: a.recovered.push(place), ..a }
                    } else if health == Health::Error {
                        RecoverRecord {
                            still_stale: a.still_stale.push(place),
                            errors: a.errors.push(
                                "probe "@ + place + ": "@ + "error: probe failed"@,
                            ),
                            ..a
                        }
                    } else {
                        RecoverRecord { still_stale: a.still_stale.push(place), ..a }
                    }
                },
            }
        }),
{
    let after = recorded(h, event);
    let a = report(h);
    let b = report(after);
    if event is Remounted || event is Listed {
        lemma_report_start(h, event);
    } else {
        match event {
            RecoverEvent::Fstab(_) => {
                let places = withheld(after).map_values(|m: MountRecord| m.mountpoint);
                let lines = withheld(after).map_values(
                    |m: MountRecord|
                        m.mountpoint
                            + ": stale but not declared in /etc/fstab; refusing to release (mount -a could not restore it)"@,
                );
                assert(stale(after) == stale(h));
                assert(withheld(after).map_values(|m: MountRecord| refusal(m.mountpoint)) =~= lines);
                assert(b.errors =~= a.errors + lines);
                assert(b =~= (RecoverRecord {
                    unmanaged: places,
                    errors: a.errors + lines,
                    no_stale_found: h.missing.len() == 0 && stale(h).len() == 0,
                    ..a
                }));
            },
            RecoverEvent::Released(outcome) => {
                assert(managed(after) == managed(h));
                assert(withheld(after) == withheld(h));
                assert(after.releases.drop_last() =~= h.releases);
                match outcome {
                    Ok(r) => {
                        let lines = views(r.failed@).map_values(
                            |f: (Seq<char>, Seq<char>)| "release "@ + f.0 + ": "@ + f.1,
                        );
                        assert(views(r.failed@).map_values(
                            |f: (Seq<char>, Seq<char>)| release_line(f.0, f.1),
                        ) =~= lines);
                        assert(b.errors =~= a.errors + lines);
                        assert(b =~= (RecoverRecord { errors: a.errors + lines, ..a }));
                    },
                    Err(e) => {
                        let line = "release "@ + managed(h)[h.releases.len() as int].mountpoint
                            + ": "@ + e.message();
                        assert(b.errors =~= a.errors.push(line));
                        assert(b =~= (RecoverRecord { errors: a.errors.push(line), ..a }));
                    },
                }
            },
            RecoverEvent::MountedAll(outcome) => {
                assert(managed(after) == managed(h));
                assert(withheld(after) == withheld(h));
                match outcome {
                    Ok(()) => {
                        assert(b =~= a);
                    },
                    Err(e) => {
                        assert(b.errors =~= a.errors.push(e.message()));
                        assert(b =~= (RecoverRecord { errors: a.errors.push(e.message()), ..a }));
                    },
                }
            },
            RecoverEvent::Probed(health) => {
                assert(managed(after) == managed(h));
                assert(withheld(after) == withheld(h));
                assert(after.probes.drop_last() =~= h.probes);
                let place = managed(h)[h.probes.len() as int].mountpoint;
                if health == Health::Live {
                    assert(b =~= (RecoverRecord { recovered: a.recovered.push(place), ..a }));
                } else if health == Health::Error {
                    let line = "probe "@ + place + ": "@ + "error: probe failed"@;
                    assert(b.errors =~= a.errors.push(line));
                    assert(b =~= (RecoverRecord {
                        still_stale: a.still_stale.push(place),
                        errors: a.errors.push(line),
                        ..a
                    }));
                } else {
                    assert(b =~= (RecoverRecord { still_stale: a.still_stale.push(place), ..a }));
                }
            },
            _ => {},
        }
    }
}

proof fn lemma_report_start(h: History, event: RecoverEvent)
    requires
        possible(h),
        replies(event, next_action(h)),
        event is Remounted || event is Listed,
    ensures
        ({
            let a = report(h);
            let b = report(recorded(h, event));
            match event {
                RecoverEvent::Remounted(Ok(())) => b == (RecoverRecord {
                    remounted: a.remounted.push(h.missing[h.remounts.len() as int].mountpoint),
                    ..a
                }),
                RecoverEvent::Remounted(Err(e)) => b == (RecoverRecord {
                    still_missing: a.still_missing.push(
                        h.missing[h.remounts.len() as int].mountpoint,
                    ),
                    errors: a.errors.push(e.message()),
                    ..a
                }),
                RecoverEvent::Listed(Ok(mounts)) => b == (RecoverRecord {
                    errors: a.errors + views(mounts@).filter(
                        |m: MountRecord| m.health == Some("error: probe failed"@),
                    ).map_values(
                        |m: MountRecord|
                            "probe "@ + m.mountpoint + ": "@ + "error: probe failed"@,
                    ),
                    ..a
                }),
                _ => b == a,
            }
        }),
{
    let after = recorded(h, event);
    let a = report(h);
    let b = report(after);
    match event {
        RecoverEvent::Remounted(Ok(())) => {
            assert(after.remounts.drop_last() =~= h.remounts);
            assert(b =~= (RecoverRecord {
                remounted: a.remounted.push(h.missing[h.remounts.len() as int].mountpoint),
                ..a
            }));
        },
        RecoverEvent::Remounted(Err(e)) => {
            assert(after.remounts.drop_last() =~= h.remounts);
            assert(b.errors =~= a.errors.push(e.message()));
            assert(b =~= (RecoverRecord {
                still_missing: a.still_missing.push(h.missing[h.remounts.len() as int].mountpoint),
                errors: a.errors.push(e.message()),
                ..a
            }));
        },
        RecoverEvent::Listed(Ok(mounts)) => {
            let lines = views(mounts@).filter(
                |m: MountRecord| m.health == Some("error: probe failed"@),
            ).map_values(
                |m: MountRecord| "probe "@ + m.mountpoint + ": "@ + "error: probe failed"@,
            );
            assert(listing_errors(after) =~= lines);
            assert(b.errors =~= a.errors + lines);
            assert(b =~= (RecoverRecord { errors: a.errors + lines, ..a }));
        },
        _ => {
            assert(b =~= a);
        },
    }
}

} // verus!
