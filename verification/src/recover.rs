//! Recovering a host's network mounts: bring back what is declared but absent, release what is
//! stale and declared, mount everything again, and probe what was stale.
use vstd::prelude::*;
use vstd::seq_lib::*;
use vstd::string::*;

use crate::error::NfsError;
use crate::filtering::{lemma_filter_len, lemma_filter_next};
use crate::fstab::{FstabEntry, FstabRecord, declares, is_declared};
use crate::mounts::{Health, Mount, MountRecord, check_health, verdict};
use crate::release::ReleaseResult;
use crate::text::{lemma_views_push, same, views};

verus! {

// ---------------------------------------------------------------------------------------------
// Results
// ---------------------------------------------------------------------------------------------
/// What the sweep over the containers that hold bind mounts came to.
#[derive(Debug, Clone, Default)]
pub struct ConsumerRecoverResult {
    pub recovered: Vec<String>,
    pub still_stale: Vec<String>,
    /// Left alone because the host mount underneath is not healthy.
    pub skipped_host_stale: Vec<String>,
    pub errors: Vec<String>,
}

/// The outcome of a recovery. Failures of single steps are collected in `errors`.
#[derive(Debug, Clone)]
pub struct RecoverResult {
    /// Stale before, healthy now.
    pub recovered: Vec<String>,
    /// Still unhealthy.
    pub still_stale: Vec<String>,
    /// What went wrong in single steps, in the order of the steps: remounts, probes of the
    /// listing, refusals, releases, `mount -a`, and the probes at the end.
    pub errors: Vec<String>,
    /// Nothing was stale and nothing was missing.
    pub no_stale_found: bool,
    /// Declared but absent, and mounted again.
    pub remounted: Vec<String>,
    /// Declared but absent, and could not be mounted.
    pub still_missing: Vec<String>,
    /// Stale but left alone, because fstab does not declare them: once released, `mount -a` could
    /// not bring them back.
    pub unmanaged: Vec<String>,
    /// The sweep over the containers; nothing where no container runtime was there.
    pub consumers: Option<ConsumerRecoverResult>,
}

/// The mathematical content of a [`ConsumerRecoverResult`].
#[verifier::ext_equal]
pub struct ConsumerRecord {
    pub recovered: Seq<Seq<char>>,
    pub still_stale: Seq<Seq<char>>,
    pub skipped_host_stale: Seq<Seq<char>>,
    pub errors: Seq<Seq<char>>,
}

/// The mathematical content of a [`RecoverResult`].
#[verifier::ext_equal]
pub struct RecoverRecord {
    pub recovered: Seq<Seq<char>>,
    pub still_stale: Seq<Seq<char>>,
    pub errors: Seq<Seq<char>>,
    pub no_stale_found: bool,
    pub remounted: Seq<Seq<char>>,
    pub still_missing: Seq<Seq<char>>,
    pub unmanaged: Seq<Seq<char>>,
    pub consumers: Option<ConsumerRecord>,
}

impl View for ConsumerRecoverResult {
    type V = ConsumerRecord;

    open spec fn view(&self) -> ConsumerRecord {
        ConsumerRecord {
            recovered: views(self.recovered@),
            still_stale: views(self.still_stale@),
            skipped_host_stale: views(self.skipped_host_stale@),
            errors: views(self.errors@),
        }
    }
}

impl View for RecoverResult {
    type V = RecoverRecord;

    open spec fn view(&self) -> RecoverRecord {
        RecoverRecord {
            recovered: views(self.recovered@),
            still_stale: views(self.still_stale@),
            errors: views(self.errors@),
            no_stale_found: self.no_stale_found,
            remounted: views(self.remounted@),
            still_missing: views(self.still_missing@),
            unmanaged: views(self.unmanaged@),
            consumers: match self.consumers {
                Some(c) => Some(c@),
                None => None,
            },
        }
    }
}

/// Nothing recovered, nothing found.
pub open spec fn empty_record() -> RecoverRecord {
    RecoverRecord {
        recovered: Seq::empty(),
        still_stale: Seq::empty(),
        errors: Seq::empty(),
        no_stale_found: false,
        remounted: Seq::empty(),
        still_missing: Seq::empty(),
        unmanaged: Seq::empty(),
        consumers: None,
    }
}

impl Default for RecoverResult {
    fn default() -> (r: Self)
        ensures
            r@ == empty_record(),
    {
        let r: RecoverResult = RecoverResult {
            recovered: Vec::new(),
            still_stale: Vec::new(),
            errors: Vec::new(),
            no_stale_found: false,
            remounted: Vec::new(),
            still_missing: Vec::new(),
            unmanaged: Vec::new(),
            consumers: None,
        };
        proof {
            assert(r@ =~= empty_record());
        }
        r
    }
}

// ---------------------------------------------------------------------------------------------
// What has happened so far
// ---------------------------------------------------------------------------------------------
/// What the host has answered during a recovery.
#[verifier::ext_equal]
pub struct History {
    /// The declared but absent mounts; none where they could not be told.
    pub missing: Seq<FstabRecord>,
    /// For each of them in order: mounted again, or the message of the error.
    pub remounts: Seq<Result<(), Seq<char>>>,
    /// The probed mounts, or the message of the error.
    pub listed: Option<Result<Seq<MountRecord>, Seq<char>>>,
    /// What fstab declares; nothing where it could not be read.
    pub declared: Option<Seq<FstabRecord>>,
    /// For each managed mount in order: the mountpoints that could not be released with their
    /// errors, or the message of the error that kept the release from starting.
    pub releases: Seq<Result<Seq<(Seq<char>, Seq<char>)>, Seq<char>>>,
    pub mounted_all: Option<Result<(), Seq<char>>>,
    /// For each managed mount in order, its health after everything.
    pub probes: Seq<Health>,
}

/// The mounts that probed stale.
pub open spec fn stale(h: History) -> Seq<MountRecord> {
    match h.listed {
        Some(Ok(mounts)) => mounts.filter(|m: MountRecord| m.health == Some("stale"@)),
        _ => Seq::empty(),
    }
}

/// The stale mounts that fstab declares: these can be released, since `mount -a` restores them.
pub open spec fn managed(h: History) -> Seq<MountRecord> {
    match h.declared {
        Some(entries) => stale(h).filter(|m: MountRecord| declares(entries, m.mountpoint)),
        None => Seq::empty(),
    }
}

/// The stale mounts that fstab does not declare.
pub open spec fn withheld(h: History) -> Seq<MountRecord> {
    match h.declared {
        Some(entries) => stale(h).filter(|m: MountRecord| !declares(entries, m.mountpoint)),
        None => Seq::empty(),
    }
}

/// What to do next.
pub enum RecoverStep {
    Remount(FstabRecord),
    List,
    ReadFstab,
    Release(MountRecord),
    MountAll,
    Probe(Seq<char>),
    Finish,
}

/// The order of a recovery: missing mounts first, then the probes, then fstab; with something
/// stale and declared, the releases, one `mount -a` and the probes again.
pub open spec fn next_action(h: History) -> RecoverStep {
    if h.remounts.len() < h.missing.len() {
        RecoverStep::Remount(h.missing[h.remounts.len() as int])
    } else if h.listed is None {
        RecoverStep::List
    } else if h.listed->Some_0 is Err {
        RecoverStep::Finish
    } else if h.declared is None {
        RecoverStep::ReadFstab
    } else if managed(h).len() == 0 {
        RecoverStep::Finish
    } else if h.releases.len() < managed(h).len() {
        RecoverStep::Release(managed(h)[h.releases.len() as int])
    } else if h.mounted_all is None {
        RecoverStep::MountAll
    } else if h.probes.len() < managed(h).len() {
        RecoverStep::Probe(managed(h)[h.probes.len() as int].mountpoint)
    } else {
        RecoverStep::Finish
    }
}

/// The mountpoints whose remount came out as told.
pub open spec fn remount_places(
    missing: Seq<FstabRecord>,
    remounts: Seq<Result<(), Seq<char>>>,
    success: bool,
) -> Seq<Seq<char>>
    decreases remounts.len(),
{
    if remounts.len() == 0 {
        Seq::empty()
    } else {
        let before = remount_places(missing, remounts.drop_last(), success);
        if (remounts.last() is Ok) == success {
            before.push(missing[remounts.len() - 1].mountpoint)
        } else {
            before
        }
    }
}

/// The messages of the failed remounts.
pub open spec fn remount_errors(remounts: Seq<Result<(), Seq<char>>>) -> Seq<Seq<char>>
    decreases remounts.len(),
{
    if remounts.len() == 0 {
        Seq::empty()
    } else {
        let before = remount_errors(remounts.drop_last());
        match remounts.last() {
            Ok(()) => before,
            Err(message) => before.push(message),
        }
    }
}

/// Why a stale mount is left alone.
pub open spec fn refusal(mountpoint: Seq<char>) -> Seq<char> {
    mountpoint
        + ": stale but not declared in /etc/fstab; refusing to release (mount -a could not restore it)"@
}

/// What is reported of a failed release.
pub open spec fn release_line(mountpoint: Seq<char>, error: Seq<char>) -> Seq<char> {
    "release "@ + mountpoint + ": "@ + error
}

/// The errors of the releases of these mounts.
pub open spec fn release_errors(
    mounts: Seq<MountRecord>,
    releases: Seq<Result<Seq<(Seq<char>, Seq<char>)>, Seq<char>>>,
) -> Seq<Seq<char>>
    decreases releases.len(),
{
    if releases.len() == 0 {
        Seq::empty()
    } else {
        release_errors(mounts, releases.drop_last()) + match releases.last() {
            Ok(failed) => failed.map_values(|f: (Seq<char>, Seq<char>)| release_line(f.0, f.1)),
            Err(message) => seq![
                release_line(mounts[releases.len() - 1].mountpoint, message),
            ],
        }
    }
}

/// The error of `mount -a`, if it failed.
pub open spec fn mount_all_errors(h: History) -> Seq<Seq<char>> {
    match h.mounted_all {
        Some(Err(message)) => seq![message],
        _ => Seq::empty(),
    }
}

/// The mountpoints whose last probe came out as told.
pub open spec fn probed_places(
    mounts: Seq<MountRecord>,
    probes: Seq<Health>,
    healthy: bool,
) -> Seq<Seq<char>>
    decreases probes.len(),
{
    if probes.len() == 0 {
        Seq::empty()
    } else {
        let before = probed_places(mounts, probes.drop_last(), healthy);
        if (probes.last() == Health::Live) == healthy {
            before.push(mounts[probes.len() - 1].mountpoint)
        } else {
            before
        }
    }
}

/// What is reported of a probe that failed.
pub open spec fn probe_line(mountpoint: Seq<char>) -> Seq<char> {
    "probe "@ + mountpoint + ": "@ + verdict(Health::Error)
}

/// The listed mounts whose probe failed: neither healthy nor stale.
pub open spec fn unprobed(h: History) -> Seq<MountRecord> {
    match h.listed {
        Some(Ok(mounts)) => mounts.filter(
            |m: MountRecord| m.health == Some(verdict(Health::Error)),
        ),
        _ => Seq::empty(),
    }
}

/// The errors of the probes of the listing.
pub open spec fn listing_errors(h: History) -> Seq<Seq<char>> {
    unprobed(h).map_values(|m: MountRecord| probe_line(m.mountpoint))
}

/// The errors of the probes of these mounts.
pub open spec fn probe_errors(mounts: Seq<MountRecord>, probes: Seq<Health>) -> Seq<Seq<char>>
    decreases probes.len(),
{
    if probes.len() == 0 {
        Seq::empty()
    } else {
        let before = probe_errors(mounts, probes.drop_last());
        if probes.last() == Health::Error {
            before.push(probe_line(mounts[probes.len() - 1].mountpoint))
        } else {
            before
        }
    }
}

/// The result, as far as the recovery has come.
pub open spec fn report(h: History) -> RecoverRecord {
    RecoverRecord {
        recovered: probed_places(managed(h), h.probes, true),
        still_stale: probed_places(managed(h), h.probes, false),
        errors: remount_errors(h.remounts) + listing_errors(h) + withheld(h).map_values(
            |m: MountRecord| refusal(m.mountpoint),
        ) + release_errors(managed(h), h.releases) + mount_all_errors(h) + probe_errors(
            managed(h),
            h.probes,
        ),
        no_stale_found: h.declared is Some && h.missing.len() == 0 && stale(h).len() == 0,
        remounted: remount_places(h.missing, h.remounts, true),
        still_missing: remount_places(h.missing, h.remounts, false),
        unmanaged: withheld(h).map_values(|m: MountRecord| m.mountpoint),
        consumers: None,
    }
}

/// What can have been answered at any point of a recovery.
pub open spec fn possible(h: History) -> bool {
    &&& h.remounts.len() <= h.missing.len()
    &&& h.listed is Some ==> h.remounts.len() == h.missing.len()
    &&& h.declared is Some ==> h.listed is Some && h.listed->Some_0 is Ok
    &&& h.releases.len() <= managed(h).len()
    &&& h.mounted_all is Some ==> managed(h).len() > 0 && h.releases.len() == managed(h).len()
    &&& h.probes.len() <= managed(h).len()
    &&& h.probes.len() > 0 ==> h.mounted_all is Some
}

// ---------------------------------------------------------------------------------------------
// Running a recovery
// ---------------------------------------------------------------------------------------------
/// What the host answered to the last [`RecoverAction`].
pub enum RecoverEvent {
    Remounted(Result<(), NfsError>),
    Listed(Result<Vec<Mount>, NfsError>),
    /// What fstab declares, where it could be read.
    Fstab(Option<Vec<FstabEntry>>),
    Released(Result<ReleaseResult, NfsError>),
    MountedAll(Result<(), NfsError>),
    Probed(Health),
}

/// What to do next.
#[derive(Debug, PartialEq, Eq)]
pub enum RecoverAction {
    /// Bring a declared but absent mount back.
    Remount(FstabEntry),
    /// Read the mount table and probe what is watched.
    List,
    /// Read what fstab declares.
    ReadFstab,
    /// Force-release this mount, and only this one.
    Release(Mount),
    /// Run `mount -a`.
    MountAll,
    /// Probe this mountpoint again.
    Probe(String),
    /// There is nothing more to do.
    Finish,
}

impl View for RecoverAction {
    type V = RecoverStep;

    open spec fn view(&self) -> RecoverStep {
        match self {
            RecoverAction::Remount(e) => RecoverStep::Remount(e@),
            RecoverAction::List => RecoverStep::List,
            RecoverAction::ReadFstab => RecoverStep::ReadFstab,
            RecoverAction::Release(m) => RecoverStep::Release(m@),
            RecoverAction::MountAll => RecoverStep::MountAll,
            RecoverAction::Probe(p) => RecoverStep::Probe(p@),
            RecoverAction::Finish => RecoverStep::Finish,
        }
    }
}

/// The answer fits what is to be done.
pub open spec fn replies(event: RecoverEvent, step: RecoverStep) -> bool {
    match step {
        RecoverStep::Remount(_) => event is Remounted,
        RecoverStep::List => event is Listed,
        RecoverStep::ReadFstab => event is Fstab,
        RecoverStep::Release(_) => event is Released,
        RecoverStep::MountAll => event is MountedAll,
        RecoverStep::Probe(_) => event is Probed,
        RecoverStep::Finish => false,
    }
}

/// A result taken by the message of its error.
pub open spec fn or_message(r: Result<(), NfsError>) -> Result<(), Seq<char>> {
    match r {
        Ok(()) => Ok(()),
        Err(e) => Err(e.message()),
    }
}

/// The history with one more answer.
pub open spec fn recorded(h: History, event: RecoverEvent) -> History {
    match event {
        RecoverEvent::Remounted(r) => History { remounts: h.remounts.push(or_message(r)), ..h },
        RecoverEvent::Listed(Ok(mounts)) => History { listed: Some(Ok(views(mounts@))), ..h },
        RecoverEvent::Listed(Err(e)) => History { listed: Some(Err(e.message())), ..h },
        RecoverEvent::Fstab(Some(entries)) => History { declared: Some(views(entries@)), ..h },
        RecoverEvent::Fstab(None) => History { declared: Some(Seq::empty()), ..h },
        RecoverEvent::Released(Ok(r)) => History {
            releases: h.releases.push(Ok(views(r.failed@))),
            ..h
        },
        RecoverEvent::Released(Err(e)) => History {
            releases: h.releases.push(Err(e.message())),
            ..h
        },
        RecoverEvent::MountedAll(r) => History { mounted_all: Some(or_message(r)), ..h },
        RecoverEvent::Probed(health) => History { probes: h.probes.push(health), ..h },
    }
}

/// Nothing answered yet.
pub open spec fn begun(missing: Seq<FstabRecord>) -> History {
    History {
        missing,
        remounts: Seq::empty(),
        listed: None,
        declared: None,
        releases: Seq::empty(),
        mounted_all: None,
        probes: Seq::empty(),
    }
}

enum Phase {
    Remounting(usize),
    Listing,
    Declaring(Vec<Mount>),
    Releasing(Vec<Mount>, usize),
    MountingAll(Vec<Mount>),
    Probing(Vec<Mount>, usize),
    Done,
    Failed(NfsError),
}

/// A recovery that is under way.
pub struct Recovery {
    missing: Vec<FstabEntry>,
    phase: Phase,
    result: RecoverResult,
    history: Ghost<History>,
}

/// Starts a recovery. `missing` are the declared but absent mounts; `None` where they could
/// not be told, which is no reason not to go on.
pub fn recover_stale(missing: Option<Vec<FstabEntry>>) -> (r: Recovery)
    ensures
        r.wf(),
        r.history() == begun(
            match missing {
                Some(entries) => views(entries@),
                None => Seq::empty(),
            },
        ),
{
    let entries: Vec<FstabEntry> = match missing {
        Some(entries) => entries,
        None => Vec::new(),
    };
    proof {
        assert(missing is None ==> views(entries@) =~= Seq::empty());
    }
    let ghost h = begun(views(entries@));
    let result: RecoverResult = RecoverResult::default();
    proof {
        assert(result@ =~= report(h));
    }
    let phase: Phase = if entries.len() > 0 {
        Phase::Remounting(0)
    } else {
        Phase::Listing
    };
    Recovery { missing: entries, phase, result, history: Ghost(h) }
}

impl Recovery {
    /// What the host has answered so far.
    pub closed spec fn history(&self) -> History {
        self.history@
    }

    /// The state agrees with what has been answered.
    pub closed spec fn wf(&self) -> bool {
        let h = self.history@;
        &&& possible(h)
        &&& views(self.missing@) == h.missing
        &&& self.result@ == report(h)
        &&& match self.phase {
            Phase::Remounting(next) => next == h.remounts.len() && next < h.missing.len(),
            Phase::Listing => h.remounts.len() == h.missing.len() && h.listed is None,
            Phase::Declaring(mounts) => h.listed is Some && h.listed->Some_0 is Ok
                && h.declared is None && views(mounts@) == stale(h),
            Phase::Releasing(mounts, next) => h.declared is Some && views(mounts@) == managed(h)
                && next == h.releases.len() && next < mounts@.len() && h.mounted_all is None,
            Phase::MountingAll(mounts) => h.declared is Some && views(mounts@) == managed(h)
                && h.releases.len() == mounts@.len() && mounts@.len() > 0 && h.mounted_all is None,
            Phase::Probing(mounts, next) => h.declared is Some && views(mounts@) == managed(h)
                && h.mounted_all is Some && next == h.probes.len() && next < mounts@.len(),
            Phase::Done => h.listed is Some && h.listed->Some_0 is Ok && next_action(h) is Finish,
            Phase::Failed(e) => h.listed == Some(
                Err::<Seq<MountRecord>, Seq<char>>(e.message()),
            ),
        }
    }

    /// What to do next.
    pub fn pending(&self) -> (r: RecoverAction)
        requires
            self.wf(),
        ensures
            r@ == next_action(self.history()),
    {
        match &self.phase {
            Phase::Remounting(next) => RecoverAction::Remount(self.missing[*next].clone()),
            Phase::Listing => RecoverAction::List,
            Phase::Declaring(_) => RecoverAction::ReadFstab,
            Phase::Releasing(mounts, next) => RecoverAction::Release(mounts[*next].clone()),
            Phase::MountingAll(_) => RecoverAction::MountAll,
            Phase::Probing(mounts, next) => RecoverAction::Probe(
                mounts[*next].mountpoint.clone(),
            ),
            Phase::Done => RecoverAction::Finish,
            Phase::Failed(_) => RecoverAction::Finish,
        }
    }

    /// Does the answer fit what is to be done?
    pub fn accepts(&self, event: &RecoverEvent) -> (r: bool)
        requires
            self.wf(),
        ensures
            r == replies(*event, next_action(self.history())),
    {
        match (&self.phase, event) {
            (Phase::Remounting(_), RecoverEvent::Remounted(_)) => true,
            (Phase::Listing, RecoverEvent::Listed(_)) => true,
            (Phase::Declaring(_), RecoverEvent::Fstab(_)) => true,
            (Phase::Releasing(_, _), RecoverEvent::Released(_)) => true,
            (Phase::MountingAll(_), RecoverEvent::MountedAll(_)) => true,
            (Phase::Probing(_, _), RecoverEvent::Probed(_)) => true,
            _ => false,
        }
    }

    /// Takes the answer to what was to be done.
    pub fn step(self, event: RecoverEvent) -> (r: Recovery)
        requires
            self.wf(),
            replies(event, next_action(self.history())),
        ensures
            r.wf(),
            r.history() == recorded(self.history(), event),
    {
        let ghost h = self.history@;
        let ghost after = recorded(h, event);
        let missing: Vec<FstabEntry> = self.missing;
        let mut result: RecoverResult = self.result;
        let phase: Phase = match (self.phase, event) {
            (Phase::Remounting(next), RecoverEvent::Remounted(outcome)) => {
                let mountpoint: String = missing[next].mountpoint.clone();
                record_remount(&mut result, mountpoint, outcome, Ghost(h));
                if next < missing.len() - 1 {
                    Phase::Remounting(next + 1)
                } else {
                    Phase::Listing
                }
            },
            (Phase::Listing, RecoverEvent::Listed(Ok(mounts))) => {
                record_listing(&mut result, &mounts, Ghost(h));
                let found: Vec<Mount> = stale_mounts(mounts);
                Phase::Declaring(found)
            },
            (Phase::Listing, RecoverEvent::Listed(Err(e))) => {
                proof {
                    assert(result@ =~= report(after));
                }
                Phase::Failed(e)
            },
            (Phase::Declaring(found), RecoverEvent::Fstab(entries)) => {
                let declared: Vec<FstabEntry> = match entries {
                    Some(entries) => entries,
                    None => Vec::new(),
                };
                proof {
                    assert(entries is None ==> views(declared@) =~= Seq::empty());
                    assert(after.declared == Some(views(declared@)));
                }
                let mounts: Vec<Mount> = withhold_undeclared(
                    &mut result,
                    found,
                    &declared,
                    Ghost(h),
                );
                if mounts.len() == 0 {
                    Phase::Done
                } else {
                    Phase::Releasing(mounts, 0)
                }
            },
            (Phase::Releasing(mounts, next), RecoverEvent::Released(outcome)) => {
                record_release(&mut result, mounts[next].mountpoint.as_str(), outcome, Ghost(h));
                if next < mounts.len() - 1 {
                    Phase::Releasing(mounts, next + 1)
                } else {
                    Phase::MountingAll(mounts)
                }
            },
            (Phase::MountingAll(mounts), RecoverEvent::MountedAll(outcome)) => {
                match outcome {
                    Ok(()) => {},
                    Err(e) => {
                        let message: String = e.to_text();
                        let ghost held = result.errors@;
                        proof {
                            lemma_views_push(held, message);
                        }
                        result.errors.push(message);
                    },
                }
                proof {
                    assert(managed(after) == managed(h));
                    assert(withheld(after) == withheld(h));
                    assert(result@ =~= report(after));
                }
                Phase::Probing(mounts, 0)
            },
            (Phase::Probing(mounts, next), RecoverEvent::Probed(health)) => {
                record_probe(&mut result, mounts[next].mountpoint.clone(), health, Ghost(h));
                if next < mounts.len() - 1 {
                    Phase::Probing(mounts, next + 1)
                } else {
                    Phase::Done
                }
            },
            (phase, _) => phase,
        };
        Recovery { missing, phase, result, history: Ghost(after) }
    }

    /// The result of a recovery that has finished. Only a mount table that could not be read is
    /// an error.
    pub fn finish(self) -> (r: Result<RecoverResult, NfsError>)
        requires
            self.wf(),
            next_action(self.history()) is Finish,
        ensures
            match r {
                Ok(result) => self.history().listed->Some_0 is Ok && result@ == report(
                    self.history(),
                ),
                Err(e) => self.history().listed == Some(
                    Err::<Seq<MountRecord>, Seq<char>>(e.message()),
                ),
            },
    {
        match self.phase {
            Phase::Failed(e) => Err(e),
            _ => Ok(self.result),
        }
    }
}

/// The result of a recovery on a host with this many container runtimes, with what the sweep over
/// their containers came to. Without a runtime there was nothing to sweep, and the result says so.
/// The host's own result is kept as it is.
pub fn recover_stale_multi(
    host: RecoverResult,
    runtimes: usize,
    consumers: ConsumerRecoverResult,
) -> (r: RecoverResult)
    ensures
        r@ == (RecoverRecord {
            consumers: if runtimes == 0 {
                None
            } else {
                Some(consumers@)
            },
            ..host@
        }),
{
    let mut r: RecoverResult = host;
    r.consumers = if runtimes == 0 {
        None
    } else {
        Some(consumers)
    };
    r
}

/// Notes how one remount went.
fn record_remount(
    result: &mut RecoverResult,
    mountpoint: String,
    outcome: Result<(), NfsError>,
    Ghost(h): Ghost<History>,
)
    requires
        possible(h),
        h.remounts.len() < h.missing.len(),
        mountpoint@ == h.missing[h.remounts.len() as int].mountpoint,
        old(result)@ == report(h),
    ensures
        final(result)@ == report(recorded(h, RecoverEvent::Remounted(outcome))),
        possible(recorded(h, RecoverEvent::Remounted(outcome))),
{
    let ghost after = recorded(h, RecoverEvent::Remounted(outcome));
    proof {
        assert(after.remounts.drop_last() =~= h.remounts);
    }
    match outcome {
        Ok(()) => {
            let ghost held = result.remounted@;
            proof {
                lemma_views_push(held, mountpoint);
            }
            result.remounted.push(mountpoint);
        },
        Err(e) => {
            let message: String = e.to_text();
            let ghost places = result.still_missing@;
            let ghost lines = result.errors@;
            proof {
                lemma_views_push(places, mountpoint);
                lemma_views_push(lines, message);
            }
            result.still_missing.push(mountpoint);
            result.errors.push(message);
        },
    }
    proof {
        assert(result@ =~= report(after));
    }
}

/// Notes the probes of the listing that failed.
fn record_listing(result: &mut RecoverResult, mounts: &Vec<Mount>, Ghost(h): Ghost<History>)
    requires
        possible(h),
        h.remounts.len() == h.missing.len(),
        h.listed is None,
        old(result)@ == report(h),
    ensures
        ({
            let after = History { listed: Some(Ok(views(mounts@))), ..h };
            &&& final(result)@ == report(after)
            &&& possible(after)
        }),
{
    let ghost after = History { listed: Some(Ok(views(mounts@))), ..h };
    let ghost all = views(mounts@);
    let ghost keep = |m: MountRecord| m.health == Some(verdict(Health::Error));
    let ghost line = |m: MountRecord| probe_line(m.mountpoint);
    let ghost start = *result;
    let ghost base = views(result.errors@);
    let mut i: usize = 0;
    proof {
        reveal(Seq::filter);
        assert(base + all.take(0).filter(keep).map_values(line) =~= base);
    }
    while i < mounts.len()
        invariant
            i <= mounts@.len(),
            all == views(mounts@),
            keep == (|m: MountRecord| m.health == Some(verdict(Health::Error))),
            line == (|m: MountRecord| probe_line(m.mountpoint)),
            views(result.errors@) =~= base + all.take(i as int).filter(keep).map_values(line),
            result.recovered == start.recovered,
            result.still_stale == start.still_stale,
            result.no_stale_found == start.no_stale_found,
            result.remounted == start.remounted,
            result.still_missing == start.still_missing,
            result.unmanaged == start.unmanaged,
            result.consumers == start.consumers,
        decreases mounts@.len() - i,
    {
        proof {
            assert(all[i as int] == mounts@[i as int]@);
            lemma_filter_next(all, keep, i as int);
        }
        let failed: bool = match &mounts[i].health {
            Some(health) => same(health.as_str(), check_health(Health::Error).as_str()),
            None => false,
        };
        if failed {
            let text: String = probe_text(mounts[i].mountpoint.as_str());
            let ghost lines = result.errors@;
            proof {
                lemma_views_push(lines, text);
            }
            result.errors.push(text);
        }
        i = i + 1;
    }
    proof {
        assert(all.take(i as int) =~= all);
        assert(result@ =~= report(after));
    }
}

fn probe_text(mountpoint: &str) -> (r: String)
    ensures
        r@ == probe_line(mountpoint@),
{
    let mut r: String = "probe ".to_owned();
    r.append(mountpoint);
    r.append(": ");
    r.append(check_health(Health::Error).as_str());
    r
}

/// The mounts whose last probe was stale.
fn stale_mounts(mounts: Vec<Mount>) -> (r: Vec<Mount>)
    ensures
        views(r@) == views(mounts@).filter(|m: MountRecord| m.health == Some("stale"@)),
{
    let ghost values = mounts@;
    let ghost all = views(mounts@);
    let ghost keep = |m: MountRecord| m.health == Some("stale"@);
    let mut out: Vec<Mount> = Vec::new();
    proof {
        reveal(Seq::filter);
        assert(views(out@) =~= all.take(0).filter(keep));
    }
    for m in it: mounts
        invariant
            it.seq() == values,
            all == views(values),
            keep == (|m: MountRecord| m.health == Some("stale"@)),
            views(out@) =~= all.take(it.index() as int).filter(keep),
    {
        proof {
            assert(all[it.index() as int] == m@);
            lemma_filter_next(all, keep, it.index() as int);
            lemma_views_push(out@, m);
        }
        let is_stale: bool = match &m.health {
            Some(health) => same(health.as_str(), "stale"),
            None => false,
        };
        if is_stale {
            out.push(m);
        }
    }
    proof {
        assert(all.take(all.len() as int) =~= all);
    }
    out
}

/// Divides the stale mounts by what fstab declares: those that it declares are handed back for
/// release, the others are left alone and reported.
fn withhold_undeclared(
    result: &mut RecoverResult,
    found: Vec<Mount>,
    declared: &Vec<FstabEntry>,
    Ghost(h): Ghost<History>,
) -> (r: Vec<Mount>)
    requires
        possible(h),
        h.listed is Some,
        h.listed->Some_0 is Ok,
        h.declared is None,
        views(found@) == stale(h),
        old(result)@ == report(h),
    ensures
        ({
            let after = History { declared: Some(views(declared@)), ..h };
            &&& views(r@) == managed(after)
            &&& final(result)@ == report(after)
            &&& possible(after)
        }),
{
    let ghost after = History { declared: Some(views(declared@)), ..h };
    let ghost values = found@;
    let ghost all = views(found@);
    let ghost known = |m: MountRecord| declares(views(declared@), m.mountpoint);
    let ghost unknown = |m: MountRecord| !declares(views(declared@), m.mountpoint);
    let ghost place = |m: MountRecord| m.mountpoint;
    let ghost line = |m: MountRecord| refusal(m.mountpoint);
    let ghost start = *result;
    let ghost base = views(result.errors@);
    let mut out: Vec<Mount> = Vec::new();
    proof {
        reveal(Seq::filter);
        assert(views(out@) =~= all.take(0).filter(known));
        assert(views(result.unmanaged@) =~= all.take(0).filter(unknown).map_values(place));
        assert(views(result.errors@) =~= base + all.take(0).filter(unknown).map_values(line));
    }
    for m in it: found
        invariant
            it.seq() == values,
            all == views(values),
            known == (|m: MountRecord| declares(views(declared@), m.mountpoint)),
            unknown == (|m: MountRecord| !declares(views(declared@), m.mountpoint)),
            place == (|m: MountRecord| m.mountpoint),
            line == (|m: MountRecord| refusal(m.mountpoint)),
            views(out@) =~= all.take(it.index() as int).filter(known),
            views(result.unmanaged@) =~= all.take(it.index() as int).filter(unknown).map_values(
                place,
            ),
            views(result.errors@) =~= base + all.take(it.index() as int).filter(
                unknown,
            ).map_values(line),
            result.recovered == start.recovered,
            result.still_stale == start.still_stale,
            result.no_stale_found == start.no_stale_found,
            result.remounted == start.remounted,
            result.still_missing == start.still_missing,
            result.consumers == start.consumers,
    {
        proof {
            assert(all[it.index() as int] == m@);
            lemma_filter_next(all, known, it.index() as int);
            lemma_filter_next(all, unknown, it.index() as int);
            lemma_views_push(out@, m);
        }
        if is_declared(declared.as_slice(), m.mountpoint.as_str()) {
            out.push(m);
        } else {
            let mut message: String = m.mountpoint.clone();
            message.append(
                ": stale but not declared in /etc/fstab; refusing to release (mount -a could not restore it)",
            );
            let mountpoint: String = m.mountpoint;
            let ghost places = result.unmanaged@;
            let ghost lines = result.errors@;
            proof {
                lemma_views_push(places, mountpoint);
                lemma_views_push(lines, message);
            }
            result.unmanaged.push(mountpoint);
            result.errors.push(message);
        }
    }
    proof {
        assert(all.take(all.len() as int) =~= all);
        lemma_filter_len(all, known, unknown);
        assert(views(result.unmanaged@).len() == withheld(after).len());
        assert(h.missing.len() == 0 <==> views(result.remounted@).len() == 0 && views(
            result.still_missing@,
        ).len() == 0) by {
            lemma_remounts_counted(h.missing, h.remounts);
        }
    }
    if out.len() == 0 {
        result.no_stale_found = result.remounted.len() == 0 && result.still_missing.len() == 0
            && result.unmanaged.len() == 0;
    }
    proof {
        assert(result@ =~= report(after));
    }
    out
}

/// Every remount counts once, as done or as failed; a failed one has a message.
pub proof fn lemma_remounts_counted(
    missing: Seq<FstabRecord>,
    remounts: Seq<Result<(), Seq<char>>>,
)
    ensures
        remount_places(missing, remounts, true).len() + remount_places(
            missing,
            remounts,
            false,
        ).len() == remounts.len(),
        remount_errors(remounts).len() == remount_places(missing, remounts, false).len(),
    decreases remounts.len(),
{
    if remounts.len() > 0 {
        lemma_remounts_counted(missing, remounts.drop_last());
    }
}

/// Notes how one release went.
fn record_release(
    result: &mut RecoverResult,
    mountpoint: &str,
    outcome: Result<ReleaseResult, NfsError>,
    Ghost(h): Ghost<History>,
)
    requires
        possible(h),
        h.declared is Some,
        h.mounted_all is None,
        h.releases.len() < managed(h).len(),
        mountpoint@ == managed(h)[h.releases.len() as int].mountpoint,
        old(result)@ == report(h),
    ensures
        final(result)@ == report(recorded(h, RecoverEvent::Released(outcome))),
        possible(recorded(h, RecoverEvent::Released(outcome))),
        managed(recorded(h, RecoverEvent::Released(outcome))) == managed(h),
{
    let ghost after = recorded(h, RecoverEvent::Released(outcome));
    let ghost start = *result;
    let ghost base = views(result.errors@);
    proof {
        assert(after.releases.drop_last() =~= h.releases);
        assert(managed(after) == managed(h));
        assert(withheld(after) == withheld(h));
    }
    match outcome {
        Ok(r) => {
            let failed = r.failed;
            let ghost all = views(failed@);
            let ghost line = |f: (Seq<char>, Seq<char>)| release_line(f.0, f.1);
            let mut i: usize = 0;
            proof {
                assert(base + all.take(0).map_values(line) =~= base);
            }
            while i < failed.len()
                invariant
                    i <= failed@.len(),
                    all == views(failed@),
                    line == (|f: (Seq<char>, Seq<char>)| release_line(f.0, f.1)),
                    views(result.errors@) =~= base + all.take(i as int).map_values(line),
                    result.recovered == start.recovered,
                    result.still_stale == start.still_stale,
                    result.no_stale_found == start.no_stale_found,
                    result.remounted == start.remounted,
                    result.still_missing == start.still_missing,
                    result.unmanaged == start.unmanaged,
                    result.consumers == start.consumers,
                decreases failed@.len() - i,
            {
                let text: String = release_text(
                    failed[i].mountpoint.as_str(),
                    failed[i].error.as_str(),
                );
                let ghost lines = result.errors@;
                proof {
                    assert(all[i as int] == failed@[i as int]@);
                    lemma_views_push(lines, text);
                }
                result.errors.push(text);
                i = i + 1;
            }
            proof {
                assert(all.take(i as int) =~= all);
                assert(result@ =~= report(after));
            }
        },
        Err(e) => {
            let text: String = release_text(mountpoint, e.to_text().as_str());
            let ghost lines = result.errors@;
            proof {
                lemma_views_push(lines, text);
            }
            result.errors.push(text);
            proof {
                assert(result@ =~= report(after));
            }
        },
    }
}

fn release_text(mountpoint: &str, error: &str) -> (r: String)
    ensures
        r@ == release_line(mountpoint@, error@),
{
    let mut r: String = "release ".to_owned();
    r.append(mountpoint);
    r.append(": ");
    r.append(error);
    r
}

/// Notes how one probe after the recovery went.
fn record_probe(
    result: &mut RecoverResult,
    mountpoint: String,
    health: Health,
    Ghost(h): Ghost<History>,
)
    requires
        possible(h),
        h.mounted_all is Some,
        h.probes.len() < managed(h).len(),
        mountpoint@ == managed(h)[h.probes.len() as int].mountpoint,
        old(result)@ == report(h),
    ensures
        final(result)@ == report(recorded(h, RecoverEvent::Probed(health))),
        possible(recorded(h, RecoverEvent::Probed(health))),
        managed(recorded(h, RecoverEvent::Probed(health))) == managed(h),
{
    let ghost after = recorded(h, RecoverEvent::Probed(health));
    proof {
        assert(after.probes.drop_last() =~= h.probes);
        assert(managed(after) == managed(h));
        assert(withheld(after) == withheld(h));
    }
    if health == Health::Error {
        let line: String = probe_text(mountpoint.as_str());
        let ghost lines = result.errors@;
        proof {
            lemma_views_push(lines, line);
        }
        result.errors.push(line);
    }
    if health == Health::Live {
        let ghost places = result.recovered@;
        proof {
            lemma_views_push(places, mountpoint);
        }
        result.recovered.push(mountpoint);
    } else {
        let ghost places = result.still_stale@;
        proof {
            lemma_views_push(places, mountpoint);
        }
        result.still_stale.push(mountpoint);
    }
    proof {
        assert(result@ =~= report(after));
    }
}

} // verus!
