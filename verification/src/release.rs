//! Releasing mounts: which mountpoints to unmount, draining each of them of every stacked layer,
//! and the report.
use vstd::prelude::*;
use vstd::seq_lib::*;
use vstd::string::*;

use crate::error::NfsError;
use crate::filtering::{lemma_filter_membership, lemma_filter_next};
use crate::fstab::is_mounted;
use crate::mounts::{Mount, MountRecord, filter_by_fstype, mounted_on, of_fstype};
use crate::number::{exit_code, exit_code_text};
use crate::text::{contains_text, lemma_contains_push, lemma_views_push, occurs, same, views};

verus! {

// ---------------------------------------------------------------------------------------------
// Order of mountpoints
// ---------------------------------------------------------------------------------------------
/// `a` comes before `b` in the order of their code points.
pub open spec fn precedes(a: Seq<char>, b: Seq<char>) -> bool
    decreases a.len(),
{
    if b.len() == 0 {
        false
    } else if a.len() == 0 {
        true
    } else if a[0] != b[0] {
        a[0] < b[0]
    } else {
        precedes(a.skip(1), b.skip(1))
    }
}

pub open spec fn strictly_sorted(texts: Seq<Seq<char>>) -> bool {
    forall|i: int, j: int|
        0 <= i < j < texts.len() ==> precedes(#[trigger] texts[i], #[trigger] texts[j])
}

pub proof fn lemma_precedes_transitive(a: Seq<char>, b: Seq<char>, c: Seq<char>)
    requires
        precedes(a, b),
        precedes(b, c),
    ensures
        precedes(a, c),
    decreases a.len(),
{
    if a.len() > 0 && a[0] == b[0] && b[0] == c[0] {
        lemma_precedes_transitive(a.skip(1), b.skip(1), c.skip(1));
    }
}

pub proof fn lemma_precedes_irreflexive(a: Seq<char>)
    ensures
        !precedes(a, a),
    decreases a.len(),
{
    if a.len() > 0 {
        lemma_precedes_irreflexive(a.skip(1));
    }
}

pub proof fn lemma_precedes_total(a: Seq<char>, b: Seq<char>)
    ensures
        precedes(a, b) || a == b || precedes(b, a),
    decreases a.len(),
{
    if a.len() > 0 && b.len() > 0 && a[0] == b[0] {
        lemma_precedes_total(a.skip(1), b.skip(1));
        if a.skip(1) == b.skip(1) {
            assert(a =~= seq![a[0]] + a.skip(1));
            assert(b =~= seq![b[0]] + b.skip(1));
        }
    } else if a.len() == 0 && b.len() == 0 {
        assert(a =~= b);
    }
}

/// The order of two texts is decided where they first differ.
pub proof fn lemma_precedes_at(a: Seq<char>, b: Seq<char>, n: int)
    requires
        0 <= n <= a.len(),
        n <= b.len(),
        forall|i: int| 0 <= i < n ==> #[trigger] a[i] == b[i],
        n < a.len() && n < b.len() ==> a[n] != b[n],
    ensures
        precedes(a, b) == (n < b.len() && (n == a.len() || a[n] < b[n])),
    decreases n,
{
    if n > 0 {
        assert(a[0] == b[0]);
        let x = a.skip(1);
        let y = b.skip(1);
        assert forall|i: int| 0 <= i < n - 1 implies #[trigger] x[i] == y[i] by {
            assert(a[i + 1] == b[i + 1]);
        }
        lemma_precedes_at(x, y, n - 1);
    }
}

/// Does `a` come before `b`?
fn comes_before(a: &str, b: &str) -> (r: bool)
    ensures
        r == precedes(a@, b@),
{
    let len: usize = b.unicode_len();
    let mut n: usize = 0;
    for x in it: a.chars()
        invariant
            it.seq() == a@,
            n == it.index(),
            len == b@.len(),
            n <= len,
            forall|i: int| 0 <= i < n ==> #[trigger] a@[i] == b@[i],
    {
        if n == len {
            proof {
                lemma_precedes_at(a@, b@, n as int);
            }
            return false;
        }
        let y: char = b.get_char(n);
        if x != y {
            proof {
                lemma_precedes_at(a@, b@, n as int);
            }
            return x < y;
        }
        n = n + 1;
    }
    proof {
        lemma_precedes_at(a@, b@, n as int);
    }
    n < len
}

/// Puts `text` in its place, unless it is there already.
fn insert_sorted(texts: &mut Vec<String>, text: String)
    requires
        strictly_sorted(views(old(texts)@)),
    ensures
        strictly_sorted(views(final(texts)@)),
        forall|p: Seq<char>|
            #[trigger] views(final(texts)@).contains(p) == (views(old(texts)@).contains(p) || p
                == text@),
{
    let ghost before = views(texts@);
    let ghost t = text@;
    let mut k: usize = 0;
    while k < texts.len() && comes_before(texts[k].as_str(), text.as_str())
        invariant
            k <= texts@.len(),
            before == views(texts@),
            t == text@,
            forall|j: int| 0 <= j < k ==> precedes(#[trigger] before[j], t),
        decreases texts@.len() - k,
    {
        proof {
            assert(before[k as int] == texts@[k as int]@);
        }
        k = k + 1;
    }
    proof {
        assert(before == views(texts@));
        if k < texts@.len() {
            assert(before[k as int] == texts@[k as int]@);
        }
    }
    if k < texts.len() && same(texts[k].as_str(), text.as_str()) {
        proof {
            assert(before.contains(before[k as int]));
        }
        return ;
    }
    proof {
        assert forall|j: int| k <= j < before.len() implies precedes(t, #[trigger] before[j]) by {
            lemma_precedes_total(before[k as int], t);
            if j > k {
                lemma_precedes_transitive(t, before[k as int], before[j]);
            }
        }
    }
    texts.insert(k, text);
    proof {
        let after = views(texts@);
        assert(after =~= before.insert(k as int, t));
        assert forall|p: Seq<char>| #[trigger] after.contains(p) == (before.contains(p) || p == t) by {
            if before.contains(p) {
                let j = choose|j: int| 0 <= j < before.len() && before[j] == p;
                if j < k {
                    assert(after[j] == p);
                } else {
                    assert(after[j + 1] == p);
                }
            }
            if p == t {
                assert(after[k as int] == p);
            }
            if after.contains(p) {
                let j = choose|j: int| 0 <= j < after.len() && after[j] == p;
                if j < k {
                    assert(before[j] == p);
                } else if j > k {
                    assert(before[j - 1] == p);
                }
            }
        }
        assert forall|i: int, j: int| 0 <= i < j < after.len() implies precedes(
            #[trigger] after[i],
            #[trigger] after[j],
        ) by {
            let x = if i < k {
                i
            } else {
                i - 1
            };
            let y = if j < k {
                j
            } else {
                j - 1
            };
            if i != k {
                assert(after[i] == before[x]);
            }
            if j != k {
                assert(after[j] == before[y]);
            }
        }
    }
}

/// A strictly sorted list is determined by what it holds.
pub proof fn law_sorted_lists_are_determined(a: Seq<Seq<char>>, b: Seq<Seq<char>>)
    requires
        strictly_sorted(a),
        strictly_sorted(b),
        forall|p: Seq<char>| #[trigger] a.contains(p) == b.contains(p),
    ensures
        a == b,
    decreases a.len(),
{
    if a.len() == 0 {
        if b.len() > 0 {
            assert(b.contains(b[0]));
            assert(a.contains(b[0]));
        }
        assert(a =~= b);
    } else {
        let x = a.last();
        assert(a.contains(a[a.len() - 1]));
        assert(b.contains(x));
        assert(b.len() > 0);
        let y = b.last();
        assert(b.contains(b[b.len() - 1]));
        assert(a.contains(y));
        let i = choose|i: int| 0 <= i < a.len() && a[i] == y;
        let j = choose|j: int| 0 <= j < b.len() && b[j] == x;
        if x != y {
            assert(precedes(a[i], a[a.len() - 1]));
            assert(precedes(b[j], b[b.len() - 1]));
            lemma_precedes_transitive(x, y, x);
            lemma_precedes_irreflexive(x);
        }
        let c = a.drop_last();
        let d = b.drop_last();
        assert(c.push(x) =~= a);
        assert(d.push(x) =~= b);
        assert forall|p: Seq<char>| #[trigger] c.contains(p) == d.contains(p) by {
            lemma_contains_push(c, x, p);
            lemma_contains_push(d, x, p);
            assert(a.contains(p) == b.contains(p));
            if c.contains(x) {
                let k = choose|k: int| 0 <= k < c.len() && c[k] == x;
                assert(precedes(a[k], a[a.len() - 1]));
                lemma_precedes_irreflexive(x);
            }
            if d.contains(x) {
                let k = choose|k: int| 0 <= k < d.len() && d[k] == x;
                assert(precedes(b[k], b[b.len() - 1]));
                lemma_precedes_irreflexive(x);
            }
        }
        assert(strictly_sorted(c)) by {
            assert forall|i: int, j: int| 0 <= i < j < c.len() implies precedes(
                #[trigger] c[i],
                #[trigger] c[j],
            ) by {
                assert(c[i] == a[i] && c[j] == a[j]);
            }
        }
        assert(strictly_sorted(d)) by {
            assert forall|i: int, j: int| 0 <= i < j < d.len() implies precedes(
                #[trigger] d[i],
                #[trigger] d[j],
            ) by {
                assert(d[i] == b[i] && d[j] == b[j]);
            }
        }
        law_sorted_lists_are_determined(c, d);
    }
}

// ---------------------------------------------------------------------------------------------
// What to release
// ---------------------------------------------------------------------------------------------
/// What a release will do: the mountpoints to drain, and those passed over.
#[derive(Debug, PartialEq, Eq)]
pub struct ReleasePlan {
    pub skipped: Vec<String>,
    pub targets: Vec<String>,
}

/// The host filter picks this mount: it is empty, or it stands somewhere in the device.
pub open spec fn picked(m: MountRecord, host: Seq<char>) -> bool {
    host.len() == 0 || occurs(m.device, host)
}

/// The mountpoints, of this type, that the host filter does not pick: one for each row.
pub open spec fn passed_over(
    mounts: Seq<MountRecord>,
    host: Seq<char>,
    fstype: Seq<char>,
) -> Seq<Seq<char>> {
    mounts.filter(|m: MountRecord| of_fstype(m.fstype, fstype)).filter(
        |m: MountRecord| !picked(m, host),
    ).map_values(|m: MountRecord| m.mountpoint)
}

/// A mount of this type that the host filter picks is mounted there.
pub open spec fn is_target(
    mounts: Seq<MountRecord>,
    host: Seq<char>,
    fstype: Seq<char>,
    mountpoint: Seq<char>,
) -> bool {
    exists|i: int|
        0 <= i < mounts.len() && (#[trigger] mounts[i]).mountpoint == mountpoint && of_fstype(
            mounts[i].fstype,
            fstype,
        ) && picked(mounts[i], host)
}

proof fn lemma_filter_target(
    mounts: Seq<MountRecord>,
    host: Seq<char>,
    fstype: Seq<char>,
    p: Seq<char>,
)
    ensures
        is_target(mounts, host, fstype, p) == is_target(
            mounts.filter(|m: MountRecord| of_fstype(m.fstype, fstype)),
            host,
            Seq::empty(),
            p,
        ),
    decreases mounts.len(),
{
    let keep = |m: MountRecord| of_fstype(m.fstype, fstype);
    reveal(Seq::filter);
    if mounts.len() > 0 {
        let before = mounts.drop_last();
        let last = mounts.last();
        lemma_filter_target(before, host, fstype, p);
        lemma_target_push(before, last, host, fstype, p);
        assert(before.push(last) =~= mounts);
        if keep(last) {
            lemma_target_push(before.filter(keep), last, host, Seq::empty(), p);
        }
    }
}

proof fn lemma_target_push(
    mounts: Seq<MountRecord>,
    m: MountRecord,
    host: Seq<char>,
    fstype: Seq<char>,
    p: Seq<char>,
)
    ensures
        is_target(mounts.push(m), host, fstype, p) == (is_target(mounts, host, fstype, p) || (
        m.mountpoint == p && of_fstype(m.fstype, fstype) && picked(m, host))),
{
    let all = mounts.push(m);
    if is_target(mounts, host, fstype, p) {
        let i = choose|i: int|
            0 <= i < mounts.len() && (#[trigger] mounts[i]).mountpoint == p && of_fstype(
                mounts[i].fstype,
                fstype,
            ) && picked(mounts[i], host);
        assert(all[i] == mounts[i]);
    }
    if m.mountpoint == p && of_fstype(m.fstype, fstype) && picked(m, host) {
        assert(all[mounts.len() as int] == m);
    }
    if is_target(all, host, fstype, p) {
        let i = choose|i: int|
            0 <= i < all.len() && (#[trigger] all[i]).mountpoint == p && of_fstype(
                all[i].fstype,
                fstype,
            ) && picked(all[i], host);
        if i < mounts.len() {
            assert(mounts[i] == all[i]);
        }
    }
}

/// Plans a release. The host filter is a substring of the device (`<server>:/data`); an empty
/// filter picks every mount of the type. A stacked mountpoint is in the table once per layer but
/// is drained once, so the targets are sorted and free of duplicates.
pub fn release(mounts: Vec<Mount>, host_filter: &str, fstype_filter: &str) -> (r: ReleasePlan)
    ensures
        views(r.skipped@) == passed_over(views(mounts@), host_filter@, fstype_filter@),
        strictly_sorted(views(r.targets@)),
        forall|p: Seq<char>|
            #[trigger] views(r.targets@).contains(p) == is_target(
                views(mounts@),
                host_filter@,
                fstype_filter@,
                p,
            ),
{
    let ghost table = views(mounts@);
    let typed: Vec<Mount> = filter_by_fstype(mounts, fstype_filter);
    let ghost values = typed@;
    let ghost all = views(typed@);
    let ghost drop_it = |m: MountRecord| !picked(m, host_filter@);
    let ghost place = |m: MountRecord| m.mountpoint;
    let mut skipped: Vec<String> = Vec::new();
    let mut targets: Vec<String> = Vec::new();
    proof {
        assert(views(skipped@) =~= all.take(0).filter(drop_it).map_values(place)) by {
            reveal(Seq::filter);
        }
        assert(views(targets@) =~= Seq::empty());
    }
    for m in it: typed
        invariant
            it.seq() == values,
            all == views(values),
            drop_it == (|m: MountRecord| !picked(m, host_filter@)),
            place == (|m: MountRecord| m.mountpoint),
            views(skipped@) =~= all.take(it.index() as int).filter(drop_it).map_values(place),
            strictly_sorted(views(targets@)),
            forall|p: Seq<char>|
                #[trigger] views(targets@).contains(p) == is_target(
                    all.take(it.index() as int),
                    host_filter@,
                    Seq::empty(),
                    p,
                ),
    {
        let ghost n = it.index() as int;
        let ghost record = m@;
        let ghost held = views(targets@);
        proof {
            assert(all[n] == m@);
            lemma_filter_next(all, drop_it, n);
            assert(all.take(n + 1) =~= all.take(n).push(m@));
        }
        if !host_filter.is_empty() && !contains_text(m.device.as_str(), host_filter) {
            let place_text: String = m.mountpoint;
            proof {
                lemma_views_push(skipped@, place_text);
            }
            skipped.push(place_text);
        } else {
            insert_sorted(&mut targets, m.mountpoint);
        }
        proof {
            assert forall|p: Seq<char>| #[trigger] views(targets@).contains(p) == is_target(
                all.take(n + 1),
                host_filter@,
                Seq::empty(),
                p,
            ) by {
                assert(held.contains(p) == is_target(all.take(n), host_filter@, Seq::empty(), p));
                lemma_target_push(all.take(n), record, host_filter@, Seq::empty(), p);
            }
        }
    }
    proof {
        assert(all.take(all.len() as int) =~= all);
        assert forall|p: Seq<char>| #[trigger] views(targets@).contains(p) == is_target(
            table,
            host_filter@,
            fstype_filter@,
            p,
        ) by {
            lemma_filter_target(table, host_filter@, fstype_filter@, p);
        }
    }
    ReleasePlan { skipped, targets }
}

/// A mount of this type from this very device is mounted on this very mountpoint.
pub open spec fn still_there(
    mounts: Seq<MountRecord>,
    device: Seq<char>,
    mountpoint: Seq<char>,
    fstype: Seq<char>,
) -> bool {
    exists|i: int|
        0 <= i < mounts.len() && (#[trigger] mounts[i]).device == device && mounts[i].mountpoint
            == mountpoint && of_fstype(mounts[i].fstype, fstype)
}

/// The mountpoint of this one mount, if the table still has it there.
pub open spec fn sole_target(
    mounts: Seq<MountRecord>,
    device: Seq<char>,
    mountpoint: Seq<char>,
    fstype: Seq<char>,
) -> Seq<Seq<char>> {
    if still_there(mounts, device, mountpoint, fstype) {
        seq![mountpoint]
    } else {
        Seq::empty()
    }
}

/// The mountpoints, of this type, of every other mount: one for each row.
pub open spec fn left_alone(
    mounts: Seq<MountRecord>,
    device: Seq<char>,
    mountpoint: Seq<char>,
    fstype: Seq<char>,
) -> Seq<Seq<char>> {
    mounts.filter(
        |m: MountRecord|
            of_fstype(m.fstype, fstype) && !(m.device == device && m.mountpoint == mountpoint),
    ).map_values(|m: MountRecord| m.mountpoint)
}

/// Plans the release of one mount and no other: its mountpoint is drained if the table still has
/// it there, and every other mount of the type is passed over, whatever its device.
pub fn release_only(
    mounts: &[Mount],
    device: &str,
    mountpoint: &str,
    fstype_filter: &str,
) -> (r: ReleasePlan)
    ensures
        views(r.targets@) == sole_target(
            views(mounts@),
            device@,
            mountpoint@,
            fstype_filter@,
        ),
        views(r.skipped@) == views(mounts@).filter(
            |m: MountRecord|
                of_fstype(m.fstype, fstype_filter@) && !(m.device == device@ && m.mountpoint
                    == mountpoint@),
        ).map_values(|m: MountRecord| m.mountpoint),
        views(r.skipped@) == left_alone(views(mounts@), device@, mountpoint@, fstype_filter@),
{
    let ghost all = views(mounts@);
    let ghost other = |m: MountRecord|
        of_fstype(m.fstype, fstype_filter@) && !(m.device == device@ && m.mountpoint
            == mountpoint@);
    let ghost place = |m: MountRecord| m.mountpoint;
    let mut skipped: Vec<String> = Vec::new();
    let mut found: bool = false;
    let mut i: usize = 0;
    proof {
        reveal(Seq::filter);
        assert(views(skipped@) =~= all.take(0).filter(other).map_values(place));
    }
    while i < mounts.len()
        invariant
            i <= mounts@.len(),
            all == views(mounts@),
            other == (|m: MountRecord|
                of_fstype(m.fstype, fstype_filter@) && !(m.device == device@ && m.mountpoint
                    == mountpoint@)),
            place == (|m: MountRecord| m.mountpoint),
            views(skipped@) =~= all.take(i as int).filter(other).map_values(place),
            found == exists|j: int|
                0 <= j < i && (#[trigger] all[j]).device == device@ && all[j].mountpoint
                    == mountpoint@ && of_fstype(all[j].fstype, fstype_filter@),
        decreases mounts@.len() - i,
    {
        let m: &Mount = &mounts[i];
        proof {
            assert(all[i as int] == m@);
            lemma_filter_next(all, other, i as int);
        }
        if fstype_filter.is_empty() || same(m.fstype.as_str(), fstype_filter) {
            if same(m.device.as_str(), device) && same(m.mountpoint.as_str(), mountpoint) {
                found = true;
            } else {
                let text: String = m.mountpoint.clone();
                proof {
                    lemma_views_push(skipped@, text);
                }
                skipped.push(text);
            }
        }
        i = i + 1;
    }
    proof {
        assert(all.take(i as int) =~= all);
    }
    let mut targets: Vec<String> = Vec::new();
    if found {
        targets.push(mountpoint.to_owned());
    }
    proof {
        assert(found ==> views(targets@) =~= seq![mountpoint@]);
        assert(!found ==> views(targets@) =~= Seq::empty());
    }
    ReleasePlan { skipped, targets }
}

/// The flag that `umount` is run with: lazy, and forced where the server may be unreachable.
pub fn umount_flag(force: bool) -> (r: &'static str)
    ensures
        r@ == if force {
            "-lf"@
        } else {
            "-l"@
        },
{
    if force {
        "-lf"
    } else {
        "-l"
    }
}

// ---------------------------------------------------------------------------------------------
// Draining one mountpoint
// ---------------------------------------------------------------------------------------------
/// Upper bound on the unmounts of a single mountpoint. A deeper stack means that something is
/// mounting again underneath.
pub const MAX_UNMOUNT_LAYERS: u32 = 16;

/// What became of one run of `umount`.
pub enum UmountOutcome {
    /// It ran; whether it succeeded, and its exit code.
    Exited { success: bool, code: Option<i32> },
    /// It could not be run; the text of the error.
    NotRun(String),
}

/// What the host answered to the last [`DrainAction`].
pub enum DrainEvent {
    Table(Result<Vec<Mount>, NfsError>),
    Umount(UmountOutcome),
}

/// What to do next for a mountpoint that is being drained.
#[derive(Debug, PartialEq, Eq)]
pub enum DrainAction {
    /// Read the mount table again and hand it back.
    ReadTable,
    /// Unmount the mountpoint once and hand back the outcome.
    Umount,
    /// The mountpoint is drained, or draining it failed.
    Finish(Result<(), String>),
}

/// The mathematical content of a [`DrainAction`].
pub enum Pending {
    ReadTable,
    Umount,
    Finish(Result<(), Seq<char>>),
}

impl View for DrainAction {
    type V = Pending;

    open spec fn view(&self) -> Pending {
        match self {
            DrainAction::ReadTable => Pending::ReadTable,
            DrainAction::Umount => Pending::Umount,
            DrainAction::Finish(Ok(())) => Pending::Finish(Ok(())),
            DrainAction::Finish(Err(e)) => Pending::Finish(Err(e@)),
        }
    }
}

/// How far draining a mountpoint has come: the layers popped so far, and what is pending.
pub struct Progress {
    pub popped: int,
    pub pending: Pending,
}

pub open spec fn too_deep() -> Seq<char> {
    "still mounted after draining 16 layers; something is re-mounting underneath"@
}

/// The answer fits what is pending.
pub open spec fn answers(event: DrainEvent, pending: Pending) -> bool {
    match pending {
        Pending::ReadTable => event is Table,
        Pending::Umount => event is Umount,
        Pending::Finish(_) => false,
    }
}

/// Draining goes on until the mount table no longer lists the mountpoint: each pass looks there
/// first, then pops one layer.
pub open spec fn advanced(mountpoint: Seq<char>, p: Progress, event: DrainEvent) -> Progress {
    match event {
        DrainEvent::Table(Err(e)) => Progress {
            pending: Pending::Finish(Err("re-read mount table: "@ + e.message())),
            ..p
        },
        DrainEvent::Table(Ok(mounts)) => if !mounted_on(views(mounts@), mountpoint) {
            Progress { pending: Pending::Finish(Ok(())), ..p }
        } else if p.popped >= MAX_UNMOUNT_LAYERS {
            Progress { pending: Pending::Finish(Err(too_deep())), ..p }
        } else {
            Progress { pending: Pending::Umount, ..p }
        },
        DrainEvent::Umount(UmountOutcome::Exited { success, code }) => if success {
            Progress { popped: p.popped + 1, pending: Pending::ReadTable }
        } else {
            Progress { pending: Pending::Finish(Err("exit code "@ + exit_code(code))), ..p }
        },
        DrainEvent::Umount(UmountOutcome::NotRun(e)) => Progress {
            pending: Pending::Finish(Err(e@)),
            ..p
        },
    }
}

/// A mountpoint that is being drained.
pub struct Drain {
    mountpoint: String,
    popped: u32,
    pending: DrainAction,
}

impl Drain {
    pub closed spec fn place(&self) -> Seq<char> {
        self.mountpoint@
    }

    pub closed spec fn progress(&self) -> Progress {
        Progress { popped: self.popped as int, pending: self.pending@ }
    }

    /// Another layer is popped only while the bound is not reached.
    pub open spec fn wf(&self) -> bool {
        &&& 0 <= self.progress().popped <= MAX_UNMOUNT_LAYERS
        &&& self.progress().pending is Umount ==> self.progress().popped < MAX_UNMOUNT_LAYERS
    }

    /// Starts draining `mountpoint`.
    pub fn new(mountpoint: String) -> (r: Drain)
        ensures
            r.wf(),
            r.place() == mountpoint@,
            r.progress() == (Progress { popped: 0, pending: Pending::ReadTable }),
    {
        Drain { mountpoint, popped: 0, pending: DrainAction::ReadTable }
    }

    /// What to do next.
    pub fn pending(&self) -> (r: &DrainAction)
        ensures
            r@ == self.progress().pending,
    {
        &self.pending
    }

    /// Does the answer fit what is pending?
    pub fn accepts(&self, event: &DrainEvent) -> (r: bool)
        ensures
            r == answers(*event, self.progress().pending),
    {
        match (&self.pending, event) {
            (DrainAction::ReadTable, DrainEvent::Table(_)) => true,
            (DrainAction::Umount, DrainEvent::Umount(_)) => true,
            _ => false,
        }
    }

    /// Takes the answer to what was pending.
    pub fn step(&mut self, event: DrainEvent)
        requires
            old(self).wf(),
            answers(event, old(self).progress().pending),
        ensures
            final(self).wf(),
            final(self).place() == old(self).place(),
            final(self).progress() == advanced(
                old(self).place(),
                old(self).progress(),
                event,
            ),
    {
        match event {
            DrainEvent::Table(Err(e)) => {
                let mut m: String = "re-read mount table: ".to_owned();
                m.append(e.to_text().as_str());
                self.pending = DrainAction::Finish(Err(m));
            },
            DrainEvent::Table(Ok(mounts)) => {
                if !is_mounted(mounts.as_slice(), self.mountpoint.as_str()) {
                    self.pending = DrainAction::Finish(Ok(()));
                } else if self.popped >= MAX_UNMOUNT_LAYERS {
                    self.pending = DrainAction::Finish(
                        Err(
                            "still mounted after draining 16 layers; something is re-mounting underneath".to_owned(),
                        ),
                    );
                } else {
                    self.pending = DrainAction::Umount;
                }
            },
            DrainEvent::Umount(UmountOutcome::Exited { success, code }) => {
                if success {
                    self.popped = self.popped + 1;
                    self.pending = DrainAction::ReadTable;
                } else {
                    let mut m: String = "exit code ".to_owned();
                    m.append(exit_code_text(code).as_str());
                    self.pending = DrainAction::Finish(Err(m));
                }
            },
            DrainEvent::Umount(UmountOutcome::NotRun(e)) => {
                self.pending = DrainAction::Finish(Err(e));
            },
        }
    }

    /// The report on a mountpoint whose draining has finished.
    pub fn report(self) -> (r: DrainReport)
        requires
            self.wf(),
            self.progress().pending is Finish,
        ensures
            r@ == (DrainRecord {
                mountpoint: self.place(),
                popped: self.progress().popped as u32,
                outcome: self.progress().pending->Finish_0,
            }),
    {
        match self.pending {
            DrainAction::Finish(outcome) => DrainReport {
                mountpoint: self.mountpoint,
                popped: self.popped,
                outcome,
            },
            _ => DrainReport { mountpoint: self.mountpoint, popped: self.popped, outcome: Ok(()) },
        }
    }
}

// ---------------------------------------------------------------------------------------------
// The report
// ---------------------------------------------------------------------------------------------
/// How draining one mountpoint went. The layers popped are counted even where it failed.
#[derive(Debug, PartialEq, Eq)]
pub struct DrainReport {
    pub mountpoint: String,
    pub popped: u32,
    pub outcome: Result<(), String>,
}

/// The mathematical content of a [`DrainReport`].
pub struct DrainRecord {
    pub mountpoint: Seq<char>,
    pub popped: u32,
    pub outcome: Result<(), Seq<char>>,
}

impl View for DrainReport {
    type V = DrainRecord;

    open spec fn view(&self) -> DrainRecord {
        DrainRecord {
            mountpoint: self.mountpoint@,
            popped: self.popped,
            outcome: match self.outcome {
                Ok(()) => Ok(()),
                Err(e) => Err(e@),
            },
        }
    }
}

/// A mountpoint and the number of layers unmounted from it.
#[derive(Debug, Clone, PartialEq, Eq)]
pub struct MountLayers {
    pub mountpoint: String,
    pub layers: u32,
}

/// A mountpoint that could not be released, and why.
#[derive(Debug, Clone)]
pub struct ReleaseFailure {
    pub mountpoint: String,
    pub error: String,
}

/// The outcome of a release. `layers_released` counts the layers that were unmounted; more than
/// one means that the mountpoint was stacked.
#[derive(Debug, Clone)]
pub struct ReleaseResult {
    pub released: Vec<String>,
    pub skipped: Vec<String>,
    pub failed: Vec<ReleaseFailure>,
    pub layers_released: Vec<MountLayers>,
}

impl View for MountLayers {
    type V = (Seq<char>, u32);

    open spec fn view(&self) -> (Seq<char>, u32) {
        (self.mountpoint@, self.layers)
    }
}

impl View for ReleaseFailure {
    type V = (Seq<char>, Seq<char>);

    open spec fn view(&self) -> (Seq<char>, Seq<char>) {
        (self.mountpoint@, self.error@)
    }
}

/// The mountpoints that were drained.
pub open spec fn drained(attempts: Seq<DrainRecord>) -> Seq<Seq<char>> {
    attempts.filter(|a: DrainRecord| a.outcome is Ok).map_values(|a: DrainRecord| a.mountpoint)
}

/// The mountpoints that could not be drained, each with the error.
pub open spec fn undrained(attempts: Seq<DrainRecord>) -> Seq<(Seq<char>, Seq<char>)> {
    attempts.filter(|a: DrainRecord| a.outcome is Err).map_values(
        |a: DrainRecord| (a.mountpoint, a.outcome->Err_0),
    )
}

/// The mountpoints from which a layer was popped, each with the number of layers.
pub open spec fn popped_layers(attempts: Seq<DrainRecord>) -> Seq<(Seq<char>, u32)> {
    attempts.filter(|a: DrainRecord| a.popped > 0).map_values(
        |a: DrainRecord| (a.mountpoint, a.popped),
    )
}

/// The report of a release. A mountpoint that could not be drained does not hide the others.
pub fn release_result(skipped: Vec<String>, attempts: Vec<DrainReport>) -> (r: ReleaseResult)
    ensures
        r.skipped == skipped,
        views(r.released@) == drained(views(attempts@)),
        views(r.failed@) == undrained(views(attempts@)),
        views(r.layers_released@) == popped_layers(views(attempts@)),
{
    let ghost values = attempts@;
    let ghost all = views(attempts@);
    let ghost good = |a: DrainRecord| a.outcome is Ok;
    let ghost bad = |a: DrainRecord| a.outcome is Err;
    let ghost deep = |a: DrainRecord| a.popped > 0;
    let ghost place = |a: DrainRecord| a.mountpoint;
    let ghost failure = |a: DrainRecord| (a.mountpoint, a.outcome->Err_0);
    let ghost layers = |a: DrainRecord| (a.mountpoint, a.popped);
    let mut released: Vec<String> = Vec::new();
    let mut failed: Vec<ReleaseFailure> = Vec::new();
    let mut layers_released: Vec<MountLayers> = Vec::new();
    proof {
        reveal(Seq::filter);
        assert(views(released@) =~= all.take(0).filter(good).map_values(place));
        assert(views(failed@) =~= all.take(0).filter(bad).map_values(failure));
        assert(views(layers_released@) =~= all.take(0).filter(deep).map_values(layers));
    }
    for a in it: attempts
        invariant
            it.seq() == values,
            all == views(values),
            good == (|a: DrainRecord| a.outcome is Ok),
            bad == (|a: DrainRecord| a.outcome is Err),
            deep == (|a: DrainRecord| a.popped > 0),
            place == (|a: DrainRecord| a.mountpoint),
            failure == (|a: DrainRecord| (a.mountpoint, a.outcome->Err_0)),
            layers == (|a: DrainRecord| (a.mountpoint, a.popped)),
            views(released@) =~= all.take(it.index() as int).filter(good).map_values(place),
            views(failed@) =~= all.take(it.index() as int).filter(bad).map_values(failure),
            views(layers_released@) =~= all.take(it.index() as int).filter(deep).map_values(layers),
    {
        let ghost n = it.index() as int;
        proof {
            assert(all[n] == a@);
            lemma_filter_next(all, good, n);
            lemma_filter_next(all, bad, n);
            lemma_filter_next(all, deep, n);
        }
        if a.popped > 0 {
            let counted: MountLayers = MountLayers {
                mountpoint: a.mountpoint.clone(),
                layers: a.popped,
            };
            proof {
                lemma_views_push(layers_released@, counted);
            }
            layers_released.push(counted);
        }
        match a.outcome {
            Ok(()) => {
                let mountpoint: String = a.mountpoint;
                proof {
                    lemma_views_push(released@, mountpoint);
                }
                released.push(mountpoint);
            },
            Err(error) => {
                let f: ReleaseFailure = ReleaseFailure { mountpoint: a.mountpoint, error };
                proof {
                    lemma_views_push(failed@, f);
                }
                failed.push(f);
            },
        }
    }
    proof {
        assert(all.take(all.len() as int) =~= all);
    }
    ReleaseResult { released, skipped, failed, layers_released }
}

// ---------------------------------------------------------------------------------------------
// Laws
// ---------------------------------------------------------------------------------------------
/// The state of a drain after these answers.
pub open spec fn drain_after(mountpoint: Seq<char>, events: Seq<DrainEvent>) -> Progress
    decreases events.len(),
{
    if events.len() == 0 {
        Progress { popped: 0, pending: Pending::ReadTable }
    } else {
        advanced(mountpoint, drain_after(mountpoint, events.drop_last()), events.last())
    }
}

/// Every answer was one to what was pending.
pub open spec fn drain_trace(mountpoint: Seq<char>, events: Seq<DrainEvent>) -> bool {
    forall|i: int|
        0 <= i < events.len() ==> answers(
            #[trigger] events[i],
            drain_after(mountpoint, events.take(i)).pending,
        )
}

/// A successful run of `umount`.
pub open spec fn pops(event: DrainEvent) -> bool {
    event matches DrainEvent::Umount(UmountOutcome::Exited { success, .. }) && success
}

proof fn lemma_trace_prefix(mountpoint: Seq<char>, events: Seq<DrainEvent>)
    requires
        events.len() > 0,
        drain_trace(mountpoint, events),
    ensures
        drain_trace(mountpoint, events.drop_last()),
        answers(events.last(), drain_after(mountpoint, events.drop_last()).pending),
{
    let before = events.drop_last();
    assert forall|i: int| 0 <= i < before.len() implies answers(
        #[trigger] before[i],
        drain_after(mountpoint, before.take(i)).pending,
    ) by {
        assert(before[i] == events[i]);
        assert(before.take(i) =~= events.take(i));
    }
    assert(events.take(events.len() - 1) =~= before);
    assert(events[events.len() - 1] == events.last());
}

/// Whatever the host answers, a drain counts the layers that it popped, never pops more than the
/// bound, and comes to an end: every pass reads the table once and pops one layer.
pub proof fn law_drain_is_bounded(mountpoint: Seq<char>, events: Seq<DrainEvent>)
    requires
        drain_trace(mountpoint, events),
    ensures
        drain_after(mountpoint, events).popped == events.filter(|e: DrainEvent| pops(e)).len(),
        0 <= drain_after(mountpoint, events).popped <= MAX_UNMOUNT_LAYERS,
        drain_after(mountpoint, events).pending is Umount ==> drain_after(mountpoint, events).popped
            < MAX_UNMOUNT_LAYERS,
        events.len() <= 2 * drain_after(mountpoint, events).popped + 2,
        drain_after(mountpoint, events).pending is ReadTable ==> events.len() == 2 * drain_after(
            mountpoint,
            events,
        ).popped,
        drain_after(mountpoint, events).pending is Umount ==> events.len() == 2 * drain_after(
            mountpoint,
            events,
        ).popped + 1,
    decreases events.len(),
{
    reveal(Seq::filter);
    if events.len() > 0 {
        lemma_trace_prefix(mountpoint, events);
        law_drain_is_bounded(mountpoint, events.drop_last());
    }
}

/// A drain reports success only when the mount table, just read, no longer lists the mountpoint.
pub proof fn law_drained_means_absent(mountpoint: Seq<char>, events: Seq<DrainEvent>)
    requires
        drain_trace(mountpoint, events),
        drain_after(mountpoint, events).pending == Pending::Finish(Ok(())),
    ensures
        events.len() > 0,
        events.last() is Table,
        events.last()->Table_0 is Ok,
        !mounted_on(views(events.last()->Table_0->Ok_0@), mountpoint),
{
}

/// The mountpoints of these attempts.
pub open spec fn attempted(attempts: Seq<DrainRecord>) -> Seq<Seq<char>> {
    attempts.map_values(|a: DrainRecord| a.mountpoint)
}

/// The mountpoints of these failures.
pub open spec fn failed_places(failed: Seq<(Seq<char>, Seq<char>)>) -> Seq<Seq<char>> {
    failed.map_values(|f: (Seq<char>, Seq<char>)| f.0)
}

/// Every attempt is reported once, as released or as failed. Where the mountpoints are strictly
/// sorted, as those of a plan are, both lists are strictly sorted too, no mountpoint is in both,
/// and together they hold exactly the mountpoints attempted.
pub proof fn law_every_attempt_is_reported_once(attempts: Seq<DrainRecord>)
    ensures
        drained(attempts).len() + undrained(attempts).len() == attempts.len(),
        forall|p: Seq<char>|
            #[trigger] attempted(attempts).contains(p) == (drained(attempts).contains(p)
                || failed_places(undrained(attempts)).contains(p)),
        strictly_sorted(attempted(attempts)) ==> {
            &&& strictly_sorted(drained(attempts))
            &&& strictly_sorted(failed_places(undrained(attempts)))
            &&& forall|p: Seq<char>|
                #[trigger] drained(attempts).contains(p) ==> !failed_places(
                    undrained(attempts),
                ).contains(p)
        },
    decreases attempts.len(),
{
    reveal(Seq::filter);
    let places = attempted(attempts);
    let good = drained(attempts);
    let bad = failed_places(undrained(attempts));
    if attempts.len() > 0 {
        let before = attempts.drop_last();
        let last = attempts.last();
        law_every_attempt_is_reported_once(before);
        let places0 = attempted(before);
        let good0 = drained(before);
        let bad0 = failed_places(undrained(before));
        assert(places =~= places0.push(last.mountpoint));
        if last.outcome is Ok {
            assert(good =~= good0.push(last.mountpoint));
            assert(bad =~= bad0);
        } else {
            assert(good =~= good0);
            assert(bad =~= bad0.push(last.mountpoint));
        }
        assert forall|p: Seq<char>| #[trigger] places.contains(p) == (good.contains(p)
            || bad.contains(p)) by {
            assert(places0.contains(p) == (good0.contains(p) || bad0.contains(p)));
            lemma_contains_push(places0, last.mountpoint, p);
            lemma_contains_push(good0, last.mountpoint, p);
            lemma_contains_push(bad0, last.mountpoint, p);
        }
        if strictly_sorted(places) {
            assert forall|i: int, j: int| 0 <= i < j < places0.len() implies precedes(
                #[trigger] places0[i],
                #[trigger] places0[j],
            ) by {
                assert(places0[i] == places[i] && places0[j] == places[j]);
            }
            assert forall|p: Seq<char>| places0.contains(p) implies #[trigger] precedes(
                p,
                last.mountpoint,
            ) by {
                let i = choose|i: int| 0 <= i < places0.len() && places0[i] == p;
                assert(precedes(places[i], places[places.len() - 1]));
            }
            lemma_precedes_irreflexive(last.mountpoint);
            lemma_sorted_push(good0, last.mountpoint, places0);
            lemma_sorted_push(bad0, last.mountpoint, places0);
            assert forall|p: Seq<char>| #[trigger] good.contains(p) implies !bad.contains(p) by {
                assert(places0.contains(p) == (good0.contains(p) || bad0.contains(p)));
                lemma_contains_push(good0, last.mountpoint, p);
                lemma_contains_push(bad0, last.mountpoint, p);
                if good0.contains(p) {
                    assert(!bad0.contains(p));
                }
            }
        }
    } else {
        assert forall|p: Seq<char>| #[trigger] places.contains(p) == (good.contains(p)
            || bad.contains(p)) by {
            assert(places.len() == 0 && good.len() == 0 && bad.len() == 0);
        }
    }
}

/// What follows everything in a list can be put at the end of a part of it.
proof fn lemma_sorted_push(part: Seq<Seq<char>>, text: Seq<char>, whole: Seq<Seq<char>>)
    requires
        strictly_sorted(part),
        forall|p: Seq<char>| #[trigger] part.contains(p) ==> whole.contains(p),
        forall|p: Seq<char>| whole.contains(p) ==> #[trigger] precedes(p, text),
    ensures
        strictly_sorted(part.push(text)),
{
    let all = part.push(text);
    assert forall|i: int, j: int| 0 <= i < j < all.len() implies precedes(
        #[trigger] all[i],
        #[trigger] all[j],
    ) by {
        assert(all[i] == part[i]);
        if j < part.len() {
            assert(all[j] == part[j]);
        } else {
            assert(part.contains(part[i]));
        }
    }
}

/// A release passes over or drains every mount of the type, and touches no other: the host filter
/// decides which.
pub proof fn law_every_mount_of_the_type_is_decided(
    mounts: Seq<MountRecord>,
    host: Seq<char>,
    fstype: Seq<char>,
    i: int,
)
    requires
        0 <= i < mounts.len(),
        of_fstype(mounts[i].fstype, fstype),
    ensures
        picked(mounts[i], host) ==> is_target(mounts, host, fstype, mounts[i].mountpoint),
        !picked(mounts[i], host) ==> passed_over(mounts, host, fstype).contains(
            mounts[i].mountpoint,
        ),
{
    let typed = |m: MountRecord| of_fstype(m.fstype, fstype);
    let other = |m: MountRecord| !picked(m, host);
    if !picked(mounts[i], host) {
        let kept = mounts.filter(typed);
        lemma_filter_membership(mounts, typed, mounts[i]);
        let j = choose|j: int| 0 <= j < kept.len() && kept[j] == mounts[i];
        lemma_filter_membership(kept, other, kept[j]);
        let rest = kept.filter(other);
        let k = choose|k: int| 0 <= k < rest.len() && rest[k] == mounts[i];
        assert(passed_over(mounts, host, fstype)[k] == mounts[i].mountpoint);
    }
}

} // verus!
