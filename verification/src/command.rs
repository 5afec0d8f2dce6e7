//! The host commands that mounting needs, and what their outcomes mean.
use vstd::prelude::*;
use vstd::string::*;

use crate::error::NfsError;
use crate::fstab::{FstabEntry, FstabRecord};
use crate::number::{exit_code, exit_code_text};
use crate::release::umount_flag;
use crate::text::{replace, replaced, trim, trimmed, views};

verus! {

/// A program and its arguments.
#[derive(Debug, PartialEq, Eq)]
pub struct CommandLine {
    pub program: String,
    pub args: Vec<String>,
}

/// The mathematical content of a [`CommandLine`].
#[verifier::ext_equal]
pub struct Invocation {
    pub program: Seq<char>,
    pub args: Seq<Seq<char>>,
}

impl View for CommandLine {
    type V = Invocation;

    open spec fn view(&self) -> Invocation {
        Invocation { program: self.program@, args: views(self.args@) }
    }
}

/// A program that ran and failed: its exit code and what it wrote to standard error.
#[derive(Debug, PartialEq, Eq)]
pub struct ToolFailure {
    pub code: Option<i32>,
    pub stderr: String,
}

impl ToolFailure {
    pub open spec fn message(&self) -> Seq<char> {
        "exit "@ + exit_code(self.code) + ": "@ + self.stderr@
    }
}

/// The text under which a failed program is reported.
pub fn tool_error_text(e: &ToolFailure) -> (r: String)
    ensures
        r@ == e.message(),
{
    let mut r: String = "exit ".to_owned();
    r.append(exit_code_text(e.code).as_str());
    r.append(": ");
    r.append(e.stderr.as_str());
    r
}

/// `mount -a`.
pub open spec fn mount_all_invocation() -> Invocation {
    Invocation { program: "mount"@, args: seq!["-a"@] }
}

/// `mount <mountpoint>`.
pub open spec fn mount_invocation(mountpoint: Seq<char>) -> Invocation {
    Invocation { program: "mount"@, args: seq![mountpoint] }
}

/// `umount <flag> <mountpoint>`.
pub open spec fn umount_invocation(flag: Seq<char>, mountpoint: Seq<char>) -> Invocation {
    Invocation { program: "umount"@, args: seq![flag, mountpoint] }
}

/// `systemd-escape -p --suffix=<suffix> <mountpoint>`.
pub open spec fn escape_invocation(mountpoint: Seq<char>, suffix: Seq<char>) -> Invocation {
    Invocation {
        program: "systemd-escape"@,
        args: seq!["-p"@, "--suffix="@ + suffix, mountpoint],
    }
}

/// `systemctl reset-failed` for an automount unit and the mount unit that belongs to it.
pub open spec fn reset_invocation(unit: Seq<char>) -> Invocation {
    Invocation {
        program: "systemctl"@,
        args: seq!["reset-failed"@, unit, replace(unit, ".automount"@, ".mount"@)],
    }
}

/// `mount -a`: mounts everything in fstab that is not mounted yet.
pub fn mount_all_command() -> (r: CommandLine)
    ensures
        r@ == mount_all_invocation(),
{
    let r: CommandLine = CommandLine {
        program: "mount".to_owned(),
        args: vec!["-a".to_owned()],
    };
    proof {
        assert(r@ =~= mount_all_invocation());
    }
    r
}

/// `mount <mountpoint>`.
pub fn mount_command(mountpoint: &str) -> (r: CommandLine)
    ensures
        r@ == mount_invocation(mountpoint@),
{
    let r: CommandLine = CommandLine {
        program: "mount".to_owned(),
        args: vec![mountpoint.to_owned()],
    };
    proof {
        assert(r@ =~= mount_invocation(mountpoint@));
    }
    r
}

/// `umount <flag> <mountpoint>`.
pub fn umount_command(flag: &str, mountpoint: &str) -> (r: CommandLine)
    ensures
        r@ == umount_invocation(flag@, mountpoint@),
{
    let r: CommandLine = CommandLine {
        program: "umount".to_owned(),
        args: vec![flag.to_owned(), mountpoint.to_owned()],
    };
    proof {
        assert(r@ =~= umount_invocation(flag@, mountpoint@));
    }
    r
}

/// `umount -lf <mountpoint>`: lazy and forced. Recovery and an explicit request to unmount detach
/// this way, since a mount whose server is unreachable does not let go of a lazy unmount alone.
pub fn force_umount_command(mountpoint: &str) -> (r: CommandLine)
    ensures
        r@ == umount_invocation("-lf"@, mountpoint@),
        r@ == (Invocation { program: "umount"@, args: seq!["-lf"@, mountpoint@] }),
{
    umount_command(umount_flag(true), mountpoint)
}

/// The command that names the systemd unit of a mountpoint.
pub fn systemd_escape_command(mountpoint: &str, suffix: &str) -> (r: CommandLine)
    ensures
        r@ == escape_invocation(mountpoint@, suffix@),
{
    let mut option: String = "--suffix=".to_owned();
    option.append(suffix);
    let r: CommandLine = CommandLine {
        program: "systemd-escape".to_owned(),
        args: vec!["-p".to_owned(), option, mountpoint.to_owned()],
    };
    proof {
        assert(r@ =~= escape_invocation(mountpoint@, suffix@));
    }
    r
}

/// The command that clears a failed automount unit and its mount unit.
pub fn reset_failed_command(unit: &str) -> (r: CommandLine)
    ensures
        r@ == reset_invocation(unit@),
{
    proof {
        reveal_strlit(".automount");
    }
    let r: CommandLine = CommandLine {
        program: "systemctl".to_owned(),
        args: vec![
            "reset-failed".to_owned(),
            unit.to_owned(),
            replaced(unit, ".automount", ".mount"),
        ],
    };
    proof {
        assert(r@ =~= reset_invocation(unit@));
    }
    r
}

/// The unit name that `systemd-escape` printed, or the error where it failed.
pub fn systemd_escape(mountpoint: &str, stdout: Option<&str>) -> (r: Result<String, NfsError>)
    ensures
        match stdout {
            Some(text) => r is Ok && r->Ok_0@ == trim(text@),
            None => r is Err && (r->Err_0 matches NfsError::Remount { mountpoint: m, source }
                && m@ == mountpoint@ && source@ == "systemd-escape failed"@),
        },
{
    match stdout {
        Some(text) => Ok(trimmed(text).to_owned()),
        None => Err(
            NfsError::Remount {
                mountpoint: mountpoint.to_owned(),
                source: "systemd-escape failed".to_owned(),
            },
        ),
    }
}

/// What `mount -a` came to.
pub fn mount_all(outcome: Result<(), ToolFailure>) -> (r: Result<(), NfsError>)
    ensures
        match outcome {
            Ok(()) => r is Ok,
            Err(e) => r is Err && (r->Err_0 matches NfsError::MountAll { source } && source@
                == e.message()),
        },
{
    match outcome {
        Ok(()) => Ok(()),
        Err(e) => Err(NfsError::MountAll { source: tool_error_text(&e) }),
    }
}

// ---------------------------------------------------------------------------------------------
// Remounting one entry
// ---------------------------------------------------------------------------------------------
/// What the host answered to the last [`RemountAction`].
pub enum RemountEvent {
    /// What `systemd-escape` printed, where it succeeded.
    Escaped(Option<String>),
    /// The reset was run. Its outcome does not matter.
    Reset,
    Mounted(Result<(), ToolFailure>),
}

/// What to do next to bring a declared but absent mount back.
#[derive(Debug, PartialEq, Eq)]
pub enum RemountAction {
    /// Name the automount unit.
    Escape(CommandLine),
    /// Clear the failed units, ignoring the outcome.
    Reset(CommandLine),
    /// Mount the path.
    Mount(CommandLine),
    Finish(Result<(), NfsError>),
}

/// The mathematical content of a [`RemountAction`].
pub enum RemountStep {
    Escape(Invocation),
    Reset(Invocation),
    Mount(Invocation),
    /// The message of the error, where there is one.
    Finish(Result<(), Seq<char>>),
}

impl View for RemountAction {
    type V = RemountStep;

    open spec fn view(&self) -> RemountStep {
        match self {
            RemountAction::Escape(c) => RemountStep::Escape(c@),
            RemountAction::Reset(c) => RemountStep::Reset(c@),
            RemountAction::Mount(c) => RemountStep::Mount(c@),
            RemountAction::Finish(Ok(())) => RemountStep::Finish(Ok(())),
            RemountAction::Finish(Err(e)) => RemountStep::Finish(Err(e.message())),
        }
    }
}

/// Remounting starts with naming the automount unit, where there is one.
pub open spec fn first_step(entry: FstabRecord) -> RemountStep {
    if entry.automount {
        RemountStep::Escape(escape_invocation(entry.mountpoint, "automount"@))
    } else {
        RemountStep::Mount(mount_invocation(entry.mountpoint))
    }
}

/// A failed automount unit stays failed until it is reset; where its name cannot be had the reset
/// is skipped, and either way the path is mounted directly.
pub open spec fn next_step(entry: FstabRecord, event: RemountEvent) -> RemountStep {
    match event {
        RemountEvent::Escaped(Some(stdout)) => RemountStep::Reset(
            reset_invocation(trim(stdout@)),
        ),
        RemountEvent::Escaped(None) => RemountStep::Mount(mount_invocation(entry.mountpoint)),
        RemountEvent::Reset => RemountStep::Mount(mount_invocation(entry.mountpoint)),
        RemountEvent::Mounted(Ok(())) => RemountStep::Finish(Ok(())),
        RemountEvent::Mounted(Err(e)) => RemountStep::Finish(
            Err("remount "@ + entry.mountpoint + ": "@ + e.message()),
        ),
    }
}

/// The first thing to do to bring `entry` back.
pub fn remount_one(entry: &FstabEntry) -> (r: RemountAction)
    ensures
        r@ == first_step(entry@),
{
    if entry.automount {
        RemountAction::Escape(systemd_escape_command(entry.mountpoint.as_str(), "automount"))
    } else {
        RemountAction::Mount(mount_command(entry.mountpoint.as_str()))
    }
}

/// What to do after the host's answer.
pub fn remount_next(entry: &FstabEntry, event: RemountEvent) -> (r: RemountAction)
    ensures
        r@ == next_step(entry@, event),
        event matches RemountEvent::Mounted(Err(_)) ==> (r matches RemountAction::Finish(
            Err(NfsError::Remount { mountpoint, .. }),
        ) && mountpoint@ == entry@.mountpoint),
{
    match event {
        RemountEvent::Escaped(stdout) => {
            let name: Option<&str> = match &stdout {
                Some(text) => Some(text.as_str()),
                None => None,
            };
            match systemd_escape(entry.mountpoint.as_str(), name) {
                Ok(unit) => RemountAction::Reset(reset_failed_command(unit.as_str())),
                Err(_) => RemountAction::Mount(mount_command(entry.mountpoint.as_str())),
            }
        },
        RemountEvent::Reset => RemountAction::Mount(mount_command(entry.mountpoint.as_str())),
        RemountEvent::Mounted(Ok(())) => RemountAction::Finish(Ok(())),
        RemountEvent::Mounted(Err(e)) => RemountAction::Finish(
            Err(
                NfsError::Remount {
                    mountpoint: entry.mountpoint.clone(),
                    source: tool_error_text(&e),
                },
            ),
        ),
    }
}

/// The answer fits what was to be done.
pub open spec fn remount_replies(event: RemountEvent, step: RemountStep) -> bool {
    match step {
        RemountStep::Escape(_) => event is Escaped,
        RemountStep::Reset(_) => event is Reset,
        RemountStep::Mount(_) => event is Mounted,
        RemountStep::Finish(_) => false,
    }
}

/// What is to be done after these answers.
pub open spec fn remount_after(entry: FstabRecord, events: Seq<RemountEvent>) -> RemountStep {
    if events.len() == 0 {
        first_step(entry)
    } else {
        next_step(entry, events.last())
    }
}

/// Every answer was one to what was to be done.
pub open spec fn remount_trace(entry: FstabRecord, events: Seq<RemountEvent>) -> bool {
    forall|i: int|
        0 <= i < events.len() ==> remount_replies(
            #[trigger] events[i],
            remount_after(entry, events.take(i)),
        )
}

/// Whatever the host answers, bringing a mount back ends after at most three answers. The last
/// thing done is to mount the path itself, and that alone decides the outcome. An automount entry
/// has its failed unit cleared before, wherever the unit can be named.
pub proof fn law_remount_mounts_the_path(entry: FstabRecord, events: Seq<RemountEvent>)
    requires
        remount_trace(entry, events),
    ensures
        events.len() <= 3,
        remount_after(entry, events) is Finish ==> {
            &&& events.len() > 0
            &&& events.last() is Mounted
            &&& remount_after(entry, events.drop_last()) == RemountStep::Mount(
                mount_invocation(entry.mountpoint),
            )
            &&& remount_after(entry, events) == RemountStep::Finish(Ok::<(), Seq<char>>(()))
                <==> events.last()->Mounted_0 is Ok
            &&& !entry.automount ==> events.len() == 1
            &&& entry.automount ==> events[0] is Escaped
            &&& entry.automount && events[0]->Escaped_0 is Some ==> events.len() == 3
                && remount_after(entry, events.take(1)) == RemountStep::Reset(
                reset_invocation(trim(events[0]->Escaped_0->Some_0@)),
            )
        },
{
    let n = events.len() as int;
    if n >= 1 {
        assert(remount_replies(events[0], remount_after(entry, events.take(0))));
        assert(events.take(1).last() == events[0]);
    }
    if n >= 2 {
        assert(remount_replies(events[1], remount_after(entry, events.take(1))));
        assert(events.take(2).last() == events[1]);
    }
    if n >= 3 {
        assert(remount_replies(events[2], remount_after(entry, events.take(2))));
        assert(events.take(3).last() == events[2]);
    }
    if n >= 4 {
        assert(remount_replies(events[3], remount_after(entry, events.take(3))));
    }
    if n >= 1 {
        assert(events.drop_last() =~= events.take(n - 1));
    }
}

} // verus!
