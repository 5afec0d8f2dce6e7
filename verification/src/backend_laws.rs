//! What the backend answers, told field by field: what an accepted spec keeps, what refuses one,
//! and what becomes of listings, releases and recoveries.
use vstd::pervasive::cloned;
use vstd::prelude::*;
use vstd::string::*;

use crate::backend::{
    NormalizedRecord, SpecRecord, canonical_sources, carried, folded, lemma_bad_source,
    lemma_canonical_sources, rendering, share_of, unmounted, validated,
};
use crate::error::Fault;
use crate::mounts::MountRecord;
use crate::options::{Options, read_options, render};
use crate::recover::RecoverRecord;
use crate::source::canonical_source;

verus! {

// ---------------------------------------------------------------------------------------------
// Specs
// ---------------------------------------------------------------------------------------------
/// An accepted spec keeps its backend, target, type and switch, and no secret file comes to it. Its
/// source becomes canonical, and so does each of its failover sources: none is dropped, none is
/// added, and each stays in its place.
pub proof fn law_accepted_spec_keeps_everything(spec: SpecRecord)
    requires
        validated(spec) is Ok,
    ensures
        ({
            let n = validated(spec)->Ok_0;
            &&& n.backend == spec.backend
            &&& n.target == spec.target
            &&& n.fstype == spec.fstype
            &&& n.enabled == spec.enabled
            &&& n.secret_file is None
            &&& canonical_source(spec.source) == Ok::<Seq<char>, Fault>(n.source)
            &&& n.failover_sources.len() == spec.failover_sources.len()
            &&& forall|i: int|
                0 <= i < spec.failover_sources.len() ==> canonical_source(
                    #[trigger] spec.failover_sources[i],
                ) == Ok::<Seq<char>, Fault>(n.failover_sources[i])
        }),
{
    lemma_canonical_sources(spec.failover_sources);
    let n = validated(spec)->Ok_0;
    assert forall|i: int| 0 <= i < spec.failover_sources.len() implies canonical_source(
        #[trigger] spec.failover_sources[i],
    ) == Ok::<Seq<char>, Fault>(n.failover_sources[i]) by {
        let kept = n.failover_sources[i];
        assert(canonical_source(spec.failover_sources[i]) == Ok::<Seq<char>, Fault>(kept));
    }
}

/// One more failover source goes to the end of the accepted ones, and changes nothing else.
pub proof fn law_failover_sources_go_one_by_one(spec: SpecRecord, more: Seq<char>)
    requires
        validated(spec) is Ok,
    ensures
        ({
            let longer = SpecRecord { failover_sources: spec.failover_sources.push(more), ..spec };
            let n = validated(spec)->Ok_0;
            validated(longer) == match canonical_source(more) {
                Ok(source) => Ok::<NormalizedRecord, Fault>(
                    NormalizedRecord { failover_sources: n.failover_sources.push(source), ..n },
                ),
                Err(fault) => Err(fault),
            }
        }),
{
    assert(spec.failover_sources.push(more).drop_last() =~= spec.failover_sources);
}

/// The options of an accepted spec are read and rendered; without an option string, the empty one
/// is.
pub proof fn law_accepted_options_are_rendered(spec: SpecRecord, raw: Seq<char>)
    requires
        validated(spec) is Ok,
        spec.options == Some(raw) || (spec.options is None && raw.len() == 0),
    ensures
        read_options(raw) is Ok,
        validated(spec)->Ok_0.options == Some(render(read_options(raw)->Ok_0)),
{
    if raw.len() == 0 {
        assert(raw =~= Seq::empty());
    }
}

/// Options that do not read refuse a spec whatever its sources are, with what is wrong with them.
pub proof fn law_bad_options_refuse_first(spec: SpecRecord, raw: Seq<char>, fault: Fault)
    requires
        spec.options == Some(raw),
        read_options(raw) == Err::<Options, Fault>(fault),
    ensures
        validated(spec) == Err::<NormalizedRecord, Fault>(fault),
{
}

/// A bad source refuses a spec whose options read, whatever its failover sources are.
pub proof fn law_bad_source_refuses_next(spec: SpecRecord, raw: Seq<char>, fault: Fault)
    requires
        spec.options == Some(raw),
        read_options(raw) is Ok,
        canonical_source(spec.source) == Err::<Seq<char>, Fault>(fault),
    ensures
        validated(spec) == Err::<NormalizedRecord, Fault>(fault),
{
}

/// The first bad failover source refuses a spec that is good otherwise, at whatever place it
/// stands and whatever follows it.
pub proof fn law_first_bad_failover_source_refuses(
    spec: SpecRecord,
    raw: Seq<char>,
    k: int,
    fault: Fault,
)
    requires
        spec.options == Some(raw),
        read_options(raw) is Ok,
        canonical_source(spec.source) is Ok,
        0 <= k < spec.failover_sources.len(),
        forall|i: int|
            0 <= i < k ==> canonical_source(#[trigger] spec.failover_sources[i]) is Ok,
        canonical_source(spec.failover_sources[k]) == Err::<Seq<char>, Fault>(fault),
    ensures
        validated(spec) == Err::<NormalizedRecord, Fault>(fault),
{
    let all = spec.failover_sources;
    let good = all.take(k);
    assert forall|i: int| 0 <= i < good.len() implies canonical_source(#[trigger] good[i]) is Ok by {
        assert(good[i] == all[i]);
    }
    lemma_canonical_sources(good);
    let upto = all.take(k + 1);
    assert(upto.drop_last() =~= good);
    assert(upto.last() == all[k]);
    assert(canonical_sources(upto) == Err::<Seq<Seq<char>>, Fault>(fault));
    lemma_bad_source(all, k + 1);
}

/// Options that read are rendered, and others are left as they stand.
pub proof fn law_unreadable_options_stay(raw: Seq<char>)
    ensures
        read_options(raw) matches Ok(o) ==> rendering(Some(raw)) == render(o),
        read_options(raw) is Err ==> rendering(Some(raw)) == raw,
        raw.len() == 0 ==> rendering(None) == rendering(Some(raw)),
{
    if raw.len() == 0 {
        assert(raw =~= Seq::empty());
    }
}

/// What is carried along is there exactly where it was there, and is a clone of what was there.
pub proof fn law_carried_along<T: Clone>(from: Option<T>, to: Option<T>)
    ensures
        carried(from, to) ==> (from is Some <==> to is Some),
        carried(from, to) && from is Some ==> cloned(from->Some_0, to->Some_0),
{
}

// ---------------------------------------------------------------------------------------------
// Answers
// ---------------------------------------------------------------------------------------------
/// A share is found under its mountpoint, and carries the device and the type of its mount.
pub proof fn law_share_is_its_mount(m: MountRecord)
    ensures
        share_of(m).id == m.mountpoint,
        share_of(m).source == m.device,
        share_of(m).target == Some(m.mountpoint),
        share_of(m).fstype == m.fstype,
        share_of(m).mounted,
{
}

/// A request to unmount fails with the first failure, whatever else was released; without one it
/// succeeds, the target is no longer mounted if and only if something was released, and only where
/// mounts were passed over and none released is there a remark.
pub proof fn law_unmount_answers(
    target: Seq<char>,
    released: Seq<Seq<char>>,
    skipped: Seq<Seq<char>>,
    failed: Seq<(Seq<char>, Seq<char>)>,
)
    ensures
        unmounted(target, released, skipped, failed) is Err <==> failed.len() != 0,
        unmounted(target, released, skipped, failed) matches Err(fault) ==> fault == Fault::Other(
            "unmount "@ + failed.first().0 + ": "@ + failed.first().1,
        ),
        unmounted(target, released, skipped, failed) matches Ok(o) ==> {
            &&& o.target == target
            &&& !o.recovered
            &&& o.mounted <==> released =~= Seq::empty()
            &&& o.detail is Some <==> released =~= Seq::empty() && skipped.len() != 0
            &&& o.detail is Some ==> o.detail == Some("no matching mount"@)
        },
{
}

/// The containers stand behind the host in each list, one by one and in order, with their tag in
/// front: those recovered, then, among the stale, those still stale and those that were not tried
/// because the host is stale, and the errors.
pub proof fn law_fold_tags_each_container(r: RecoverRecord, i: int)
    requires
        r.consumers is Some,
    ensures
        ({
            let c = r.consumers->Some_0;
            let o = folded(r);
            let stale = r.still_stale.len() as int;
            let both = stale + c.still_stale.len();
            &&& 0 <= i < c.recovered.len() ==> o.recovered[r.recovered.len() + i] == "consumer:"@
                + c.recovered[i]
            &&& 0 <= i < c.still_stale.len() ==> o.still_stale[stale + i] == "consumer:"@
                + c.still_stale[i]
            &&& 0 <= i < c.skipped_host_stale.len() ==> o.still_stale[both + i]
                == "consumer-skipped-host-stale:"@ + c.skipped_host_stale[i]
            &&& 0 <= i < c.errors.len() ==> o.errors[r.errors.len() + i] == "consumer: "@
                + c.errors[i]
        }),
{
}

/// Where no container runtime was asked, the answer is the host's alone.
pub proof fn law_fold_without_containers(r: RecoverRecord)
    requires
        r.consumers is None,
    ensures
        folded(r).recovered == r.recovered,
        folded(r).still_stale == r.still_stale,
        folded(r).errors == r.errors,
{
}

} // verus!
