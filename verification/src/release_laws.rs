//! What a release does, told on the rows of the mount table and on the answers of the host.
use vstd::prelude::*;
use vstd::string::*;

use crate::mounts::{MountRecord, of_fstype};
use crate::number::decimal;
use crate::release::{
    DrainEvent, DrainRecord, Pending, Progress, UmountOutcome, advanced, answers, drained,
    is_target, left_alone, lemma_precedes_at, lemma_precedes_irreflexive, lemma_precedes_total,
    lemma_precedes_transitive, passed_over, picked, popped_layers, precedes, sole_target,
    still_there, strictly_sorted, undrained,
};
use crate::table_laws::law_mounted_means_a_row_of_its_own;
use crate::text::views;
use crate::text_laws::law_occurs_means_it_stands_somewhere;

verus! {

/// Mountpoints are in the order of their code points: a text comes before its continuations, and
/// otherwise the first difference decides.
pub proof fn law_order_goes_by_code_points(
    common: Seq<char>,
    x: char,
    y: char,
    a: Seq<char>,
    b: Seq<char>,
)
    ensures
        precedes(common, common + seq![x] + a),
        !precedes(common + seq![x] + a, common),
        x != y ==> (precedes(common + seq![x] + a, common + seq![y] + b) <==> x < y),
        !precedes(a, a),
{
    let n = common.len() as int;
    let s = common + seq![x] + a;
    let t = common + seq![y] + b;
    assert forall|i: int| 0 <= i < n implies #[trigger] common[i] == s[i] by {}
    assert forall|i: int| 0 <= i < n implies #[trigger] s[i] == common[i] by {}
    lemma_precedes_at(common, s, n);
    lemma_precedes_at(s, common, n);
    lemma_precedes_irreflexive(a);
    if x != y {
        assert(s[n] == x && t[n] == y);
        assert forall|i: int| 0 <= i < n implies #[trigger] s[i] == t[i] by {}
        lemma_precedes_at(s, t, n);
    }
}

/// The order is total and transitive, so a strictly sorted list holds nothing twice.
pub proof fn law_order_is_total(a: Seq<char>, b: Seq<char>, c: Seq<char>, texts: Seq<Seq<char>>)
    ensures
        precedes(a, b) || a == b || precedes(b, a),
        precedes(a, b) && precedes(b, c) ==> precedes(a, c),
        strictly_sorted(texts) ==> texts.no_duplicates(),
        strictly_sorted(texts) <==> forall|i: int, j: int|
            0 <= i < j < texts.len() ==> precedes(#[trigger] texts[i], #[trigger] texts[j]),
{
    lemma_precedes_total(a, b);
    if precedes(a, b) && precedes(b, c) {
        lemma_precedes_transitive(a, b, c);
    }
    if strictly_sorted(texts) {
        assert forall|i: int, j: int|
            0 <= i < texts.len() && 0 <= j < texts.len() && i != j implies texts[i] != texts[j] by {
            lemma_precedes_irreflexive(texts[i]);
            if i < j {
                assert(precedes(texts[i], texts[j]));
            } else {
                assert(precedes(texts[j], texts[i]));
            }
        }
    }
}

/// The host filter is a substring test: it picks a mount if and only if it is empty or stands
/// anywhere in the device.
pub proof fn law_host_filter_is_a_substring(m: MountRecord, host: Seq<char>)
    ensures
        picked(m, host) <==> host.len() == 0 || exists|a: Seq<char>, b: Seq<char>|
            m.device == #[trigger] (a + host + b),
{
    law_occurs_means_it_stands_somewhere(m.device, host);
}

/// Every mount of the type whose device has the filter anywhere in it is a target, on its own
/// mountpoint, and nothing else is.
pub proof fn law_targets_are_the_picked_mounts(
    mounts: Seq<MountRecord>,
    host: Seq<char>,
    fstype: Seq<char>,
    i: int,
    a: Seq<char>,
    b: Seq<char>,
    p: Seq<char>,
)
    ensures
        0 <= i < mounts.len() && (fstype.len() == 0 || mounts[i].fstype == fstype) && (host.len()
            == 0 || mounts[i].device == a + host + b) ==> is_target(
            mounts,
            host,
            fstype,
            mounts[i].mountpoint,
        ),
        is_target(mounts, host, fstype, p) ==> exists|k: int|
            0 <= k < mounts.len() && (#[trigger] mounts[k]).mountpoint == p && (fstype.len() == 0
                || mounts[k].fstype == fstype) && (host.len() == 0 || exists|
                c: Seq<char>,
                d: Seq<char>,
            |
                mounts[k].device == #[trigger] (c + host + d)),
{
    if 0 <= i < mounts.len() {
        law_host_filter_is_a_substring(mounts[i], host);
    }
    if is_target(mounts, host, fstype, p) {
        let k = choose|k: int|
            0 <= k < mounts.len() && (#[trigger] mounts[k]).mountpoint == p && of_fstype(
                mounts[k].fstype,
                fstype,
            ) && picked(mounts[k], host);
        law_host_filter_is_a_substring(mounts[k], host);
        assert(mounts[k].mountpoint == p);
    }
}

/// Passed over are, row by row, the mounts of the type whose device does not hold the filter.
pub proof fn law_passed_over_row_by_row(
    mounts: Seq<MountRecord>,
    m: MountRecord,
    host: Seq<char>,
    fstype: Seq<char>,
)
    ensures
        passed_over(Seq::empty(), host, fstype) == Seq::<Seq<char>>::empty(),
        passed_over(mounts.push(m), host, fstype) == if (fstype.len() == 0 || m.fstype == fstype)
            && host.len() > 0 && !(exists|a: Seq<char>, b: Seq<char>|
            m.device == #[trigger] (a + host + b)) {
            passed_over(mounts, host, fstype).push(m.mountpoint)
        } else {
            passed_over(mounts, host, fstype)
        },
{
    reveal(Seq::filter);
    law_host_filter_is_a_substring(m, host);
    let typed = |m: MountRecord| of_fstype(m.fstype, fstype);
    let other = |m: MountRecord| !picked(m, host);
    let none = Seq::<MountRecord>::empty();
    assert(passed_over(none, host, fstype) =~= Seq::empty());
    assert(mounts.push(m).drop_last() =~= mounts);
    let kept = mounts.filter(typed);
    assert(kept.push(m).drop_last() =~= kept);
    if typed(m) {
        assert(mounts.push(m).filter(typed) == kept.push(m));
        if other(m) {
            assert(kept.push(m).filter(other) == kept.filter(other).push(m));
            assert(passed_over(mounts.push(m), host, fstype) =~= passed_over(
                mounts,
                host,
                fstype,
            ).push(m.mountpoint));
        }
    }
}

/// The release of one mount has its mountpoint for a target, and only that, and only where a row
/// with that very device and mountpoint is there and of the type.
pub proof fn law_one_mount_is_one_target(
    mounts: Seq<MountRecord>,
    device: Seq<char>,
    mountpoint: Seq<char>,
    fstype: Seq<char>,
    p: Seq<char>,
)
    ensures
        sole_target(mounts, device, mountpoint, fstype).len() <= 1,
        sole_target(mounts, device, mountpoint, fstype).contains(p) <==> p == mountpoint && exists|
            i: int,
        |
            0 <= i < mounts.len() && (#[trigger] mounts[i]).device == device
                && mounts[i].mountpoint == mountpoint && (fstype.len() == 0 || mounts[i].fstype
                == fstype),
{
    let targets = sole_target(mounts, device, mountpoint, fstype);
    if still_there(mounts, device, mountpoint, fstype) {
        let i = choose|i: int|
            0 <= i < mounts.len() && (#[trigger] mounts[i]).device == device
                && mounts[i].mountpoint == mountpoint && of_fstype(mounts[i].fstype, fstype);
        assert(mounts[i].device == device);
        assert(targets[0] == mountpoint);
    }
}

/// Beside the one mount, every row of the type is passed over, row by row, whether it shares the
/// device or the mountpoint or neither.
pub proof fn law_other_mounts_are_left_alone(
    mounts: Seq<MountRecord>,
    m: MountRecord,
    device: Seq<char>,
    mountpoint: Seq<char>,
    fstype: Seq<char>,
)
    ensures
        left_alone(Seq::empty(), device, mountpoint, fstype) == Seq::<Seq<char>>::empty(),
        left_alone(mounts.push(m), device, mountpoint, fstype) == if (fstype.len() == 0 || m.fstype
            == fstype) && (m.device != device || m.mountpoint != mountpoint) {
            left_alone(mounts, device, mountpoint, fstype).push(m.mountpoint)
        } else {
            left_alone(mounts, device, mountpoint, fstype)
        },
{
    reveal(Seq::filter);
    let none = Seq::<MountRecord>::empty();
    assert(left_alone(none, device, mountpoint, fstype) =~= Seq::empty());
    assert(mounts.push(m).drop_last() =~= mounts);
    if (fstype.len() == 0 || m.fstype == fstype) && (m.device != device || m.mountpoint
        != mountpoint) {
        assert(left_alone(mounts.push(m), device, mountpoint, fstype) =~= left_alone(
            mounts,
            device,
            mountpoint,
            fstype,
        ).push(m.mountpoint));
    }
}

/// Draining looks before it acts: with no row left on the mountpoint it is done; with one left it
/// unmounts once more, but not after sixteen layers. An unmount that worked is counted and followed
/// by another look; a failure of any kind ends it, and the layers counted stay.
pub proof fn law_drain_steps(mountpoint: Seq<char>, p: Progress, event: DrainEvent)
    ensures
        event matches DrainEvent::Table(Ok(mounts)) ==> {
            let places = views(mounts@).map_values(|m: MountRecord| m.mountpoint);
            &&& advanced(mountpoint, p, event).popped == p.popped
            &&& !places.contains(mountpoint) ==> advanced(mountpoint, p, event).pending
                == Pending::Finish(Ok(()))
            &&& places.contains(mountpoint) && p.popped < 16 ==> advanced(
                mountpoint,
                p,
                event,
            ).pending == Pending::Umount
            &&& places.contains(mountpoint) && p.popped >= 16 ==> advanced(
                mountpoint,
                p,
                event,
            ).pending == Pending::Finish(
                Err(
                    "still mounted after draining 16 layers; something is re-mounting underneath"@,
                ),
            )
        },
        event matches DrainEvent::Table(Err(e)) ==> advanced(mountpoint, p, event) == (Progress {
            popped: p.popped,
            pending: Pending::Finish(Err("re-read mount table: "@ + e.message())),
        }),
        event matches DrainEvent::Umount(UmountOutcome::Exited { success, code }) ==> {
            &&& success ==> advanced(mountpoint, p, event) == (Progress {
                popped: p.popped + 1,
                pending: Pending::ReadTable,
            })
            &&& !success ==> advanced(mountpoint, p, event).popped == p.popped && advanced(
                mountpoint,
                p,
                event,
            ).pending == Pending::Finish(
                Err(
                    "exit code "@ + match code {
                        None => "None"@,
                        Some(n) => if n < 0 {
                            "Some("@ + ("-"@ + decimal((-n) as nat)) + ")"@
                        } else {
                            "Some("@ + decimal(n as nat) + ")"@
                        },
                    },
                ),
            )
        },
        event matches DrainEvent::Umount(UmountOutcome::NotRun(e)) ==> advanced(
            mountpoint,
            p,
            event,
        ) == (Progress { popped: p.popped, pending: Pending::Finish(Err(e@)) }),
{
    if let DrainEvent::Table(Ok(mounts)) = event {
        law_mounted_means_a_row_of_its_own(views(mounts@), mountpoint);
    }
}

/// A table is an answer to the request for one, the outcome of an unmount to the request for that,
/// and nothing is an answer once draining has finished.
pub proof fn law_answers_fit_what_is_pending(event: DrainEvent, pending: Pending)
    ensures
        answers(event, pending) <==> (pending is ReadTable && event is Table) || (pending is Umount
            && event is Umount),
{
}

/// The report of a release goes attempt by attempt: what was drained is released, what was not is a
/// failure with its error, and every attempt that popped a layer is listed with its count, whether
/// it came to an end or not.
pub proof fn law_report_goes_attempt_by_attempt(attempts: Seq<DrainRecord>, a: DrainRecord)
    ensures
        drained(Seq::empty()) == Seq::<Seq<char>>::empty(),
        undrained(Seq::empty()) == Seq::<(Seq<char>, Seq<char>)>::empty(),
        popped_layers(Seq::empty()) == Seq::<(Seq<char>, u32)>::empty(),
        drained(attempts.push(a)) == match a.outcome {
            Ok(()) => drained(attempts).push(a.mountpoint),
            Err(_) => drained(attempts),
        },
        undrained(attempts.push(a)) == match a.outcome {
            Ok(()) => undrained(attempts),
            Err(e) => undrained(attempts).push((a.mountpoint, e)),
        },
        popped_layers(attempts.push(a)) == if a.popped > 0 {
            popped_layers(attempts).push((a.mountpoint, a.popped))
        } else {
            popped_layers(attempts)
        },
{
    reveal(Seq::filter);
    let none = Seq::<DrainRecord>::empty();
    assert(drained(none) =~= Seq::empty());
    assert(undrained(none) =~= Seq::empty());
    assert(popped_layers(none) =~= Seq::empty());
    assert(attempts.push(a).drop_last() =~= attempts);
    match a.outcome {
        Ok(()) => {
            assert(drained(attempts.push(a)) =~= drained(attempts).push(a.mountpoint));
        },
        Err(e) => {
            assert(undrained(attempts.push(a)) =~= undrained(attempts).push((a.mountpoint, e)));
        },
    }
    if a.popped > 0 {
        assert(popped_layers(attempts.push(a)) =~= popped_layers(attempts).push(
            (a.mountpoint, a.popped),
        ));
    }
}

} // verus!
