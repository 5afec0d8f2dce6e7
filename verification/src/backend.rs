//! The nfs backend as the storage domain sees it: what it is, which mount specs it accepts and how
//! it renders them, and what it answers when mounts are listed, released and recovered.
use vstd::pervasive::cloned;
use vstd::prelude::*;
use vstd::string::*;

use crate::error::{Fault, NfsError, StorageError, maybe, outcome};
use crate::mounts::{Mount, MountRecord};
use crate::option_laws::{law_read_is_well_typed, law_second_render_changes_nothing};
use crate::options::{
    NfsOptions, parse_nfs_options, read_options, render, render_nfs_options,
};
use crate::recover::{RecoverRecord, RecoverResult};
use crate::release::ReleaseResult;
use crate::source::{canonical_source, law_canonical_source_is_kept, normalize_nfs_source};
use crate::text::{lemma_views_push, views};

verus! {

// ---------------------------------------------------------------------------------------------
// The terms of the storage domain
// ---------------------------------------------------------------------------------------------
/// What kind of storage a backend offers.
#[derive(Debug, Clone, Copy, PartialEq, Eq, Structural)]
pub enum StorageKind {
    NetworkShare,
}

/// What a backend can be asked to do.
#[derive(Debug, Clone, Copy, PartialEq, Eq, Structural)]
pub enum Capability {
    List,
    Exports,
    Unmount,
    RecoverStale,
}

/// How a mount of this backend comes about.
#[derive(Debug, Clone, Copy, PartialEq, Eq, Structural)]
pub enum MountStyle {
    /// A kernel mount, realized through autofs.
    KernelMount,
}

/// A mount as it is declared. `C` is the credential and `P` the remount policy: both are carried
/// along and not looked at.
#[derive(Debug, PartialEq, Eq)]
pub struct MountSpec<C, P> {
    pub backend: String,
    pub target: String,
    pub fstype: String,
    pub source: String,
    pub failover_sources: Vec<String>,
    pub options: Option<String>,
    pub credential: Option<C>,
    pub remount_policy: Option<P>,
    pub enabled: bool,
}

/// The options of a normalized mount.
#[derive(Debug, PartialEq, Eq)]
pub enum OptionSet {
    /// One comma-separated option string.
    Raw { options: Option<String> },
}

/// A mount that has been checked: its sources are canonical and its options rendered.
#[derive(Debug, PartialEq, Eq)]
pub struct NormalizedSpec<C, P> {
    pub backend: String,
    pub target: String,
    pub fstype: String,
    pub source: String,
    pub failover_sources: Vec<String>,
    pub options: OptionSet,
    pub credential: Option<C>,
    pub secret_file: Option<String>,
    pub remount_policy: Option<P>,
    pub enabled: bool,
}

/// The mathematical content of a [`MountSpec`], without what is only carried along.
#[verifier::ext_equal]
pub struct SpecRecord {
    pub backend: Seq<char>,
    pub target: Seq<char>,
    pub fstype: Seq<char>,
    pub source: Seq<char>,
    pub failover_sources: Seq<Seq<char>>,
    pub options: Option<Seq<char>>,
    pub enabled: bool,
}

/// The mathematical content of a [`NormalizedSpec`], without what is only carried along.
#[verifier::ext_equal]
pub struct NormalizedRecord {
    pub backend: Seq<char>,
    pub target: Seq<char>,
    pub fstype: Seq<char>,
    pub source: Seq<char>,
    pub failover_sources: Seq<Seq<char>>,
    pub options: Option<Seq<char>>,
    pub secret_file: Option<Seq<char>>,
    pub enabled: bool,
}

impl<C, P> View for MountSpec<C, P> {
    type V = SpecRecord;

    open spec fn view(&self) -> SpecRecord {
        SpecRecord {
            backend: self.backend@,
            target: self.target@,
            fstype: self.fstype@,
            source: self.source@,
            failover_sources: views(self.failover_sources@),
            options: maybe(self.options),
            enabled: self.enabled,
        }
    }
}

impl View for OptionSet {
    type V = Option<Seq<char>>;

    open spec fn view(&self) -> Option<Seq<char>> {
        match self {
            OptionSet::Raw { options } => maybe(*options),
        }
    }
}

impl<C, P> View for NormalizedSpec<C, P> {
    type V = NormalizedRecord;

    open spec fn view(&self) -> NormalizedRecord {
        NormalizedRecord {
            backend: self.backend@,
            target: self.target@,
            fstype: self.fstype@,
            source: self.source@,
            failover_sources: views(self.failover_sources@),
            options: self.options@,
            secret_file: maybe(self.secret_file),
            enabled: self.enabled,
        }
    }
}

/// A mount that the storage domain lists.
#[derive(Debug, Clone, PartialEq, Eq)]
pub struct Share {
    pub id: String,
    pub source: String,
    pub target: Option<String>,
    pub fstype: String,
    pub mounted: bool,
}

/// The mathematical content of a [`Share`].
#[verifier::ext_equal]
pub struct ShareRecord {
    pub id: Seq<char>,
    pub source: Seq<char>,
    pub target: Option<Seq<char>>,
    pub fstype: Seq<char>,
    pub mounted: bool,
}

impl View for Share {
    type V = ShareRecord;

    open spec fn view(&self) -> ShareRecord {
        ShareRecord {
            id: self.id@,
            source: self.source@,
            target: maybe(self.target),
            fstype: self.fstype@,
            mounted: self.mounted,
        }
    }
}

/// What became of a request to unmount.
#[derive(Debug, Clone, PartialEq, Eq)]
pub struct MountOutcome {
    pub target: String,
    pub mounted: bool,
    pub recovered: bool,
    pub detail: Option<String>,
}

/// The mathematical content of a [`MountOutcome`].
#[verifier::ext_equal]
pub struct OutcomeRecord {
    pub target: Seq<char>,
    pub mounted: bool,
    pub recovered: bool,
    pub detail: Option<Seq<char>>,
}

impl View for MountOutcome {
    type V = OutcomeRecord;

    open spec fn view(&self) -> OutcomeRecord {
        OutcomeRecord {
            target: self.target@,
            mounted: self.mounted,
            recovered: self.recovered,
            detail: maybe(self.detail),
        }
    }
}

/// What became of a request to recover. The containers have no fields of their own: they stand in
/// the lists of the host, with a tag in front.
#[derive(Debug, Clone, PartialEq, Eq)]
pub struct RecoverOutcome {
    pub recovered: Vec<String>,
    pub still_stale: Vec<String>,
    pub remounted: Vec<String>,
    pub still_missing: Vec<String>,
    pub errors: Vec<String>,
    /// Of the host alone.
    pub no_stale_found: bool,
}

/// The mathematical content of a [`RecoverOutcome`].
#[verifier::ext_equal]
pub struct RecoverOutcomeRecord {
    pub recovered: Seq<Seq<char>>,
    pub still_stale: Seq<Seq<char>>,
    pub remounted: Seq<Seq<char>>,
    pub still_missing: Seq<Seq<char>>,
    pub errors: Seq<Seq<char>>,
    pub no_stale_found: bool,
}

impl View for RecoverOutcome {
    type V = RecoverOutcomeRecord;

    open spec fn view(&self) -> RecoverOutcomeRecord {
        RecoverOutcomeRecord {
            recovered: views(self.recovered@),
            still_stale: views(self.still_stale@),
            remounted: views(self.remounted@),
            still_missing: views(self.still_missing@),
            errors: views(self.errors@),
            no_stale_found: self.no_stale_found,
        }
    }
}

// ---------------------------------------------------------------------------------------------
// What the backend answers
// ---------------------------------------------------------------------------------------------
/// The option string, where there is none the empty one.
pub open spec fn raw_options(options: Option<Seq<char>>) -> Seq<char> {
    match options {
        Some(raw) => raw,
        None => Seq::empty(),
    }
}

/// The canonical forms of these sources, or what is wrong with the first bad one.
pub open spec fn canonical_sources(sources: Seq<Seq<char>>) -> Result<Seq<Seq<char>>, Fault>
    decreases sources.len(),
{
    if sources.len() == 0 {
        Ok(Seq::empty())
    } else {
        match canonical_sources(sources.drop_last()) {
            Err(fault) => Err(fault),
            Ok(before) => match canonical_source(sources.last()) {
                Err(fault) => Err(fault),
                Ok(source) => Ok(before.push(source)),
            },
        }
    }
}

/// A spec is refused for its options first, then for its source, then for its failover sources;
/// otherwise its sources become canonical and its options are rendered, and the rest is kept.
pub open spec fn validated(spec: SpecRecord) -> Result<NormalizedRecord, Fault> {
    match read_options(raw_options(spec.options)) {
        Err(fault) => Err(fault),
        Ok(options) => match canonical_source(spec.source) {
            Err(fault) => Err(fault),
            Ok(source) => match canonical_sources(spec.failover_sources) {
                Err(fault) => Err(fault),
                Ok(failover_sources) => Ok(
                    NormalizedRecord {
                        backend: spec.backend,
                        target: spec.target,
                        fstype: spec.fstype,
                        source,
                        failover_sources,
                        options: Some(render(options)),
                        secret_file: None,
                        enabled: spec.enabled,
                    },
                ),
            },
        },
    }
}

/// The option string to mount with: the options rendered anew, or as they stand where they cannot
/// be read.
pub open spec fn rendering(options: Option<Seq<char>>) -> Seq<char> {
    match read_options(raw_options(options)) {
        Ok(o) => render(o),
        Err(_) => raw_options(options),
    }
}

/// The value was carried along.
pub open spec fn carried<T: Clone>(from: Option<T>, to: Option<T>) -> bool {
    match (from, to) {
        (Some(a), Some(b)) => cloned(a, b),
        (None, None) => true,
        _ => false,
    }
}

pub open spec fn share_of(m: MountRecord) -> ShareRecord {
    ShareRecord {
        id: m.mountpoint,
        source: m.device,
        target: Some(m.mountpoint),
        fstype: m.fstype,
        mounted: true,
    }
}

/// What is answered to a request to unmount, for the mountpoints that a release drained, those it
/// passed over, and those it failed on.
pub open spec fn unmounted(
    target: Seq<char>,
    released: Seq<Seq<char>>,
    skipped: Seq<Seq<char>>,
    failed: Seq<(Seq<char>, Seq<char>)>,
) -> Result<OutcomeRecord, Fault> {
    if failed.len() > 0 {
        Err(Fault::Other("unmount "@ + failed[0].0 + ": "@ + failed[0].1))
    } else {
        Ok(
            OutcomeRecord {
                target,
                mounted: released.len() == 0,
                recovered: false,
                detail: if released.len() == 0 && skipped.len() > 0 {
                    Some("no matching mount"@)
                } else {
                    None
                },
            },
        )
    }
}

/// The names with a tag in front of each.
pub open spec fn tagged(tag: Seq<char>, names: Seq<Seq<char>>) -> Seq<Seq<char>> {
    names.map_values(|n: Seq<char>| tag + n)
}

/// The host's result, with what became of the containers behind it.
pub open spec fn folded(r: RecoverRecord) -> RecoverOutcomeRecord {
    let host = RecoverOutcomeRecord {
        recovered: r.recovered,
        still_stale: r.still_stale,
        remounted: r.remounted,
        still_missing: r.still_missing,
        errors: r.errors,
        no_stale_found: r.no_stale_found,
    };
    match r.consumers {
        None => host,
        Some(c) => RecoverOutcomeRecord {
            recovered: r.recovered + tagged("consumer:"@, c.recovered),
            still_stale: r.still_stale + tagged("consumer:"@, c.still_stale) + tagged(
                "consumer-skipped-host-stale:"@,
                c.skipped_host_stale,
            ),
            errors: r.errors + tagged("consumer: "@, c.errors),
            ..host
        },
    }
}

/// What the storage domain is told when the mount machinery fails.
pub fn transport(e: &NfsError) -> (r: StorageError)
    ensures
        r@ == Fault::Transport(e.message()),
{
    StorageError::Transport(e.to_text())
}

// ---------------------------------------------------------------------------------------------
// The backend
// ---------------------------------------------------------------------------------------------
/// The nfs backend of the storage domain. It lists the host's network mounts, releases and
/// recovers them; mounting itself is left to autofs.
pub struct NfsBackend {
    name: String,
}

impl Default for NfsBackend {
    fn default() -> (r: Self)
        ensures
            r.called() == "nfs"@,
    {
        NfsBackend::new("nfs")
    }
}

impl NfsBackend {
    pub closed spec fn called(&self) -> Seq<char> {
        self.name@
    }

    pub fn new(name: &str) -> (r: Self)
        ensures
            r.called() == name@,
    {
        NfsBackend { name: name.to_owned() }
    }

    pub fn name(&self) -> (r: &str)
        ensures
            r@ == self.called(),
    {
        self.name.as_str()
    }

    pub fn kind(&self) -> (r: StorageKind)
        ensures
            r == StorageKind::NetworkShare,
    {
        StorageKind::NetworkShare
    }

    pub fn capabilities(&self) -> (r: Vec<Capability>)
        ensures
            r@ == seq![
                Capability::List,
                Capability::Exports,
                Capability::Unmount,
                Capability::RecoverStale,
            ],
    {
        vec![
            Capability::List,
            Capability::Exports,
            Capability::Unmount,
            Capability::RecoverStale,
        ]
    }

    pub fn endpoint(&self) -> (r: String)
        ensures
            r@ == "nfs://local"@,
    {
        "nfs://local".to_owned()
    }

    pub fn mount_style(&self) -> (r: MountStyle)
        ensures
            r == MountStyle::KernelMount,
    {
        MountStyle::KernelMount
    }

    /// Checks a declared mount: malformed or conflicting options and malformed sources are refused
    /// here rather than at mount time.
    pub fn validate_spec<C: Clone, P: Clone>(&self, spec: &MountSpec<C, P>) -> (r: Result<
        NormalizedSpec<C, P>,
        StorageError,
    >)
        ensures
            outcome(r) == validated(spec@),
            r matches Ok(n) ==> carried(spec.credential, n.credential) && carried(
                spec.remount_policy,
                n.remount_policy,
            ),
    {
        let raw: Option<&str> = match &spec.options {
            Some(s) => Some(s.as_str()),
            None => None,
        };
        let parsed: NfsOptions = match parse_nfs_options(raw) {
            Ok(parsed) => parsed,
            Err(e) => return Err(e),
        };
        let rendered: String = render_nfs_options(&parsed);
        let source: String = match normalize_nfs_source(spec.source.as_str()) {
            Ok(source) => source,
            Err(e) => return Err(e),
        };
        let failover_sources: Vec<String> = match normalize_sources(&spec.failover_sources) {
            Ok(sources) => sources,
            Err(e) => return Err(e),
        };
        let r: NormalizedSpec<C, P> = NormalizedSpec {
            backend: spec.backend.clone(),
            target: spec.target.clone(),
            fstype: spec.fstype.clone(),
            source,
            failover_sources,
            options: OptionSet::Raw { options: Some(rendered) },
            credential: spec.credential.clone(),
            secret_file: None,
            remount_policy: spec.remount_policy.clone(),
            enabled: spec.enabled,
        };
        Ok(r)
    }

    /// The option string that autofs and `mount -o` are given, safety floor included. It takes the
    /// options as declared and as rendered before, and does not fail on options that do not read.
    pub fn render_options<C, P>(&self, spec: &NormalizedSpec<C, P>) -> (r: String)
        ensures
            r@ == rendering(spec@.options),
    {
        let OptionSet::Raw { options } = &spec.options;
        let raw: Option<&str> = match options {
            Some(s) => Some(s.as_str()),
            None => None,
        };
        match parse_nfs_options(raw) {
            Ok(parsed) => render_nfs_options(&parsed),
            Err(_) => match options {
                Some(s) => s.clone(),
                None => String::new(),
            },
        }
    }

    pub fn net_fstypes(&self) -> (r: Vec<String>)
        ensures
            views(r@) == seq!["nfs4"@, "nfs"@],
    {
        let mut r: Vec<String> = Vec::new();
        r.push("nfs4".to_owned());
        r.push("nfs".to_owned());
        proof {
            assert(views(r@) =~= seq!["nfs4"@, "nfs"@]);
        }
        r
    }

    /// The port at which a source is probed.
    pub fn default_source_port(&self) -> (r: Option<u16>)
        ensures
            r == Some(2049u16),
    {
        Some(2049)
    }

    /// The network mounts of the host as shares, one for each row of the mount table.
    pub fn list_shares(&self, mounts: Result<Vec<Mount>, NfsError>) -> (r: Result<
        Vec<Share>,
        StorageError,
    >)
        ensures
            match mounts {
                Ok(ms) => r matches Ok(shares) && views(shares@) == views(ms@).map_values(
                    |m: MountRecord| share_of(m),
                ),
                Err(e) => r matches Err(f) && f@ == Fault::Transport(e.message()),
            },
    {
        let rows: Vec<Mount> = match mounts {
            Ok(ms) => ms,
            Err(e) => return Err(transport(&e)),
        };
        let ghost values = rows@;
        let ghost all = views(rows@);
        let ghost share = |m: MountRecord| share_of(m);
        let mut out: Vec<Share> = Vec::new();
        for m in it: rows
            invariant
                it.seq() == values,
                all == views(values),
                share == (|m: MountRecord| share_of(m)),
                views(out@) =~= all.take(it.index() as int).map_values(share),
        {
            let s: Share = Share {
                id: m.mountpoint.clone(),
                source: m.device,
                target: Some(m.mountpoint),
                fstype: m.fstype,
                mounted: true,
            };
            proof {
                assert(all[it.index() as int] == values[it.index() as int]@);
                assert(s@ =~= share_of(values[it.index() as int]@));
                lemma_views_push(out@, s);
            }
            out.push(s);
        }
        proof {
            assert(all.take(all.len() as int) =~= all);
        }
        Ok(out)
    }

    /// What is answered once a release of `target` has run. The first mountpoint that could not be
    /// released makes the request fail.
    pub fn unmount(&self, target: &str, res: Result<ReleaseResult, NfsError>) -> (r: Result<
        MountOutcome,
        StorageError,
    >)
        ensures
            match res {
                Ok(released) => outcome(r) == unmounted(
                    target@,
                    views(released.released@),
                    views(released.skipped@),
                    views(released.failed@),
                ),
                Err(e) => r matches Err(f) && f@ == Fault::Transport(e.message()),
            },
    {
        let res: ReleaseResult = match res {
            Ok(res) => res,
            Err(e) => return Err(transport(&e)),
        };
        if res.failed.len() > 0 {
            let mut m: String = "unmount ".to_owned();
            m.append(res.failed[0].mountpoint.as_str());
            m.append(": ");
            m.append(res.failed[0].error.as_str());
            proof {
                assert(views(res.failed@)[0] == res.failed@[0]@);
            }
            return Err(StorageError::Other(m));
        }
        let mounted: bool = res.released.len() == 0;
        let detail: Option<String> = if mounted && res.skipped.len() > 0 {
            Some("no matching mount".to_owned())
        } else {
            None
        };
        Ok(MountOutcome { target: target.to_owned(), mounted, recovered: false, detail })
    }

    /// What is answered once a recovery of the host and its containers has run.
    pub fn recover_stale(&self, res: Result<RecoverResult, NfsError>) -> (r: Result<
        RecoverOutcome,
        StorageError,
    >)
        ensures
            match res {
                Ok(result) => r matches Ok(o) && o@ == folded(result@),
                Err(e) => r matches Err(f) && f@ == Fault::Transport(e.message()),
            },
    {
        let result: RecoverResult = match res {
            Ok(result) => result,
            Err(e) => return Err(transport(&e)),
        };
        let mut out: RecoverOutcome = RecoverOutcome {
            recovered: result.recovered,
            still_stale: result.still_stale,
            remounted: result.remounted,
            still_missing: result.still_missing,
            errors: result.errors,
            no_stale_found: result.no_stale_found,
        };
        match result.consumers {
            Some(c) => {
                extend_tagged(&mut out.recovered, "consumer:", c.recovered);
                extend_tagged(&mut out.still_stale, "consumer:", c.still_stale);
                extend_tagged(
                    &mut out.still_stale,
                    "consumer-skipped-host-stale:",
                    c.skipped_host_stale,
                );
                extend_tagged(&mut out.errors, "consumer: ", c.errors);
            },
            None => {},
        }
        Ok(out)
    }
}

/// Normalizes each source; the first bad one decides.
fn normalize_sources(sources: &Vec<String>) -> (r: Result<Vec<String>, StorageError>)
    ensures
        match r {
            Ok(out) => canonical_sources(views(sources@)) == Ok::<Seq<Seq<char>>, Fault>(
                views(out@),
            ),
            Err(e) => canonical_sources(views(sources@)) == Err::<Seq<Seq<char>>, Fault>(e@),
        },
{
    let ghost all = views(sources@);
    let mut out: Vec<String> = Vec::new();
    let mut i: usize = 0;
    proof {
        assert(views(out@) =~= Seq::empty());
        assert(all.take(0).len() == 0);
    }
    while i < sources.len()
        invariant
            i <= sources@.len(),
            all == views(sources@),
            canonical_sources(all.take(i as int)) == Ok::<Seq<Seq<char>>, Fault>(views(out@)),
        decreases sources@.len() - i,
    {
        proof {
            assert(all[i as int] == sources@[i as int]@);
            assert(all.take(i + 1).drop_last() =~= all.take(i as int));
        }
        match normalize_nfs_source(sources[i].as_str()) {
            Ok(source) => {
                proof {
                    lemma_views_push(out@, source);
                }
                out.push(source);
            },
            Err(e) => {
                proof {
                    lemma_bad_source(all, i + 1);
                }
                return Err(e);
            },
        }
        i = i + 1;
    }
    proof {
        assert(all.take(i as int) =~= all);
    }
    Ok(out)
}

/// A bad source is not outweighed by those behind it.
pub proof fn lemma_bad_source(sources: Seq<Seq<char>>, n: int)
    requires
        0 <= n <= sources.len(),
        canonical_sources(sources.take(n)) is Err,
    ensures
        canonical_sources(sources) == canonical_sources(sources.take(n)),
    decreases sources.len(),
{
    if n == sources.len() {
        assert(sources.take(n) =~= sources);
    } else {
        assert(sources.drop_last().take(n) =~= sources.take(n));
        lemma_bad_source(sources.drop_last(), n);
    }
}

/// Appends the names with a tag in front of each.
fn extend_tagged(lines: &mut Vec<String>, tag: &str, names: Vec<String>)
    ensures
        views(final(lines)@) == views(old(lines)@) + tagged(tag@, views(names@)),
{
    let ghost before = views(lines@);
    let ghost values = names@;
    let ghost all = views(names@);
    proof {
        assert(before + tagged(tag@, all.take(0)) =~= before);
    }
    for name in it: names
        invariant
            it.seq() == values,
            all == views(values),
            views(lines@) =~= before + tagged(tag@, all.take(it.index() as int)),
    {
        let mut line: String = tag.to_owned();
        line.append(name.as_str());
        proof {
            assert(all[it.index() as int] == name@);
            lemma_views_push(lines@, line);
        }
        lines.push(line);
    }
    proof {
        assert(all.take(all.len() as int) =~= all);
    }
}

// ---------------------------------------------------------------------------------------------
// Laws
// ---------------------------------------------------------------------------------------------
/// A spec is accepted if and only if its options read and all its sources have a canonical form.
pub proof fn law_accepted_means_everything_reads(spec: SpecRecord)
    ensures
        validated(spec) is Ok <==> read_options(raw_options(spec.options)) is Ok
            && canonical_source(spec.source) is Ok && forall|i: int|
            0 <= i < spec.failover_sources.len() ==> canonical_source(
                #[trigger] spec.failover_sources[i],
            ) is Ok,
{
    lemma_canonical_sources(spec.failover_sources);
}

pub proof fn lemma_canonical_sources(sources: Seq<Seq<char>>)
    ensures
        canonical_sources(sources) is Ok <==> forall|i: int|
            0 <= i < sources.len() ==> canonical_source(#[trigger] sources[i]) is Ok,
        canonical_sources(sources) matches Ok(out) ==> out.len() == sources.len() && forall|i: int|
            0 <= i < out.len() ==> canonical_source(sources[i]) == Ok::<Seq<char>, Fault>(
                #[trigger] out[i],
            ),
    decreases sources.len(),
{
    if sources.len() > 0 {
        let before = sources.drop_last();
        lemma_canonical_sources(before);
        assert(sources[sources.len() - 1] == sources.last());
        if canonical_sources(sources) is Ok {
            assert forall|i: int| 0 <= i < sources.len() implies canonical_source(
                #[trigger] sources[i],
            ) is Ok by {
                if i < before.len() {
                    assert(before[i] == sources[i]);
                }
            }
        }
        if forall|i: int| 0 <= i < sources.len() ==> canonical_source(#[trigger] sources[i]) is Ok {
            assert forall|i: int| 0 <= i < before.len() implies canonical_source(
                #[trigger] before[i],
            ) is Ok by {
                assert(before[i] == sources[i]);
            }
        }
    }
}

/// The declared spec that a normalized one amounts to.
pub open spec fn declared_again(n: NormalizedRecord) -> SpecRecord {
    SpecRecord {
        backend: n.backend,
        target: n.target,
        fstype: n.fstype,
        source: n.source,
        failover_sources: n.failover_sources,
        options: n.options,
        enabled: n.enabled,
    }
}

/// What has been validated validates again, to itself: its sources are canonical and its options
/// rendered already.
pub proof fn law_validated_spec_validates_again(spec: SpecRecord)
    requires
        validated(spec) is Ok,
    ensures
        validated(declared_again(validated(spec)->Ok_0)) == validated(spec),
        rendering(validated(spec)->Ok_0.options) == rendering(spec.options),
        validated(spec)->Ok_0.options == Some(rendering(spec.options)),
{
    let n = validated(spec)->Ok_0;
    let raw = raw_options(spec.options);
    let o = read_options(raw)->Ok_0;
    law_read_is_well_typed(raw);
    law_second_render_changes_nothing(o);
    law_canonical_source_is_kept(spec.source);
    lemma_canonical_sources(spec.failover_sources);
    lemma_sources_kept(n.failover_sources, spec.failover_sources);
}

proof fn lemma_sources_kept(kept: Seq<Seq<char>>, sources: Seq<Seq<char>>)
    requires
        kept.len() == sources.len(),
        forall|i: int|
            0 <= i < kept.len() ==> canonical_source(sources[i]) == Ok::<Seq<char>, Fault>(
                #[trigger] kept[i],
            ),
    ensures
        canonical_sources(kept) == Ok::<Seq<Seq<char>>, Fault>(kept),
    decreases kept.len(),
{
    if kept.len() > 0 {
        let k = kept.drop_last();
        let s = sources.drop_last();
        assert forall|i: int| 0 <= i < k.len() implies canonical_source(s[i]) == Ok::<
            Seq<char>,
            Fault,
        >(#[trigger] k[i]) by {
            assert(k[i] == kept[i] && s[i] == sources[i]);
        }
        lemma_sources_kept(k, s);
        assert(kept[kept.len() - 1] == kept.last());
        law_canonical_source_is_kept(sources[kept.len() - 1]);
        assert(k.push(kept.last()) =~= kept);
    } else {
        assert(kept =~= Seq::empty());
    }
}

/// Rendering is idempotent: whatever the options are, what was rendered renders to itself.
pub proof fn law_rendering_is_idempotent(options: Option<Seq<char>>)
    ensures
        rendering(Some(rendering(options))) == rendering(options),
{
    let raw = raw_options(options);
    if read_options(raw) is Ok {
        law_read_is_well_typed(raw);
        law_second_render_changes_nothing(read_options(raw)->Ok_0);
    }
}

/// A recovery's answer keeps the host's own results in front, and the verdict on the host is the
/// host's alone, whatever became of the containers.
pub proof fn law_fold_keeps_the_host_results(r: RecoverRecord)
    ensures
        r.recovered.is_prefix_of(folded(r).recovered),
        r.still_stale.is_prefix_of(folded(r).still_stale),
        r.errors.is_prefix_of(folded(r).errors),
        folded(r).remounted == r.remounted,
        folded(r).still_missing == r.still_missing,
        folded(r).no_stale_found == r.no_stale_found,
        r.consumers matches Some(c) ==> folded(r).recovered.len() == r.recovered.len()
            + c.recovered.len() && folded(r).still_stale.len() == r.still_stale.len()
            + c.still_stale.len() + c.skipped_host_stale.len() && folded(r).errors.len()
            == r.errors.len() + c.errors.len(),
{
    assert(r.recovered =~= folded(r).recovered.take(r.recovered.len() as int));
    assert(r.still_stale =~= folded(r).still_stale.take(r.still_stale.len() as int));
    assert(r.errors =~= folded(r).errors.take(r.errors.len() as int));
}

} // verus!
