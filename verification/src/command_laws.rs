//! What is run on the host and what is told of its failures, written out.
use vstd::prelude::*;
use vstd::string::*;

use crate::command::{
    Invocation, RemountEvent, RemountStep, ToolFailure, escape_invocation, first_step,
    mount_all_invocation, mount_invocation, next_step, reset_invocation, umount_invocation,
};
use crate::error::{Fault, NfsError, StorageError, outcome};
use crate::fstab::FstabRecord;
use crate::number::exit_code;
use crate::text::trim;
use crate::text_laws::{absent_before, law_replace_replaces_from_the_left};

verus! {

/// The command lines, argument by argument.
pub proof fn law_command_lines(mountpoint: Seq<char>, flag: Seq<char>, suffix: Seq<char>)
    ensures
        mount_all_invocation() == (Invocation { program: "mount"@, args: seq!["-a"@] }),
        mount_invocation(mountpoint) == (Invocation { program: "mount"@, args: seq![mountpoint] }),
        umount_invocation(flag, mountpoint) == (Invocation {
            program: "umount"@,
            args: seq![flag, mountpoint],
        }),
        escape_invocation(mountpoint, suffix) == (Invocation {
            program: "systemd-escape"@,
            args: seq!["-p"@, "--suffix="@ + suffix, mountpoint],
        }),
{
}

/// A reset clears the automount unit and the mount unit with the same stem.
pub proof fn law_reset_clears_both_units(stem: Seq<char>)
    requires
        absent_before(stem + ".automount"@, ".automount"@, stem.len() as int),
    ensures
        reset_invocation(stem + ".automount"@) == (Invocation {
            program: "systemctl"@,
            args: seq!["reset-failed"@, stem + ".automount"@, stem + ".mount"@],
        }),
{
    let none = Seq::<char>::empty();
    reveal_strlit(".automount");
    law_replace_replaces_from_the_left(stem, ".automount"@, none, ".mount"@);
    law_replace_replaces_from_the_left(none, ".automount"@, none, ".mount"@);
    assert(stem + ".automount"@ + none =~= stem + ".automount"@);
    assert(stem + ".mount"@ + none =~= stem + ".mount"@);
}

/// Bringing a mount back starts with naming its automount unit where the entry has one, and with
/// mounting the path where it has none.
pub proof fn law_remount_starts_at_the_unit(entry: FstabRecord)
    ensures
        first_step(entry) == if entry.automount {
            RemountStep::Escape(
                Invocation {
                    program: "systemd-escape"@,
                    args: seq!["-p"@, "--suffix=automount"@, entry.mountpoint],
                },
            )
        } else {
            RemountStep::Mount(Invocation { program: "mount"@, args: seq![entry.mountpoint] })
        },
{
    reveal_strlit("--suffix=");
    reveal_strlit("automount");
    reveal_strlit("--suffix=automount");
    assert("--suffix="@ + "automount"@ =~= "--suffix=automount"@);
}

/// A unit that could be named is reset; once it was, or where it could not be named, the path is
/// mounted; and that outcome is the end, with the mountpoint and the tool's own words where it
/// failed.
pub proof fn law_remount_goes_on(entry: FstabRecord, event: RemountEvent)
    ensures
        event matches RemountEvent::Escaped(Some(stdout)) ==> next_step(entry, event)
            == RemountStep::Reset(reset_invocation(trim(stdout@))),
        event is Reset || event == RemountEvent::Escaped(None) ==> next_step(entry, event)
            == RemountStep::Mount(
            Invocation { program: "mount"@, args: seq![entry.mountpoint] },
        ),
        event matches RemountEvent::Mounted(Ok(())) ==> next_step(entry, event)
            == RemountStep::Finish(Ok::<(), Seq<char>>(())),
        event matches RemountEvent::Mounted(Err(e)) ==> next_step(entry, event)
            == RemountStep::Finish(
            Err::<(), Seq<char>>(
                "remount "@ + entry.mountpoint + ": "@ + ("exit "@ + exit_code(e.code) + ": "@
                    + e.stderr@),
            ),
        ),
{
}

/// A failed tool is reported by its exit code and by what it wrote.
pub proof fn law_tool_failures_are_told(e: ToolFailure)
    ensures
        e.message() == "exit "@ + exit_code(e.code) + ": "@ + e.stderr@,
{
}

/// Each failure names what was tried and carries the text of its cause.
pub proof fn law_failures_are_told(mountpoint: String, source: String)
    ensures
        NfsError::Read(source).message() == "read /proc/mounts: "@ + source@,
        (NfsError::Umount { mountpoint, source }).message() == "umount -l "@ + mountpoint@ + ": "@
            + source@,
        (NfsError::MountAll { source }).message() == "mount -a: "@ + source@,
        (NfsError::Remount { mountpoint, source }).message() == "remount "@ + mountpoint@ + ": "@
            + source@,
        NfsError::Read(source).cause() == source@,
        (NfsError::Umount { mountpoint, source }).cause() == source@,
        (NfsError::MountAll { source }).cause() == source@,
        (NfsError::Remount { mountpoint, source }).cause() == source@,
        StorageError::Transport(source).text() == source@,
        StorageError::Other(source).text() == source@,
{
}

/// A message ends with the text of its cause.
pub proof fn law_messages_end_with_their_cause(e: NfsError)
    ensures
        e.cause().is_suffix_of(e.message()),
{
    let m = e.message();
    let c = e.cause();
    assert(c =~= m.subrange(m.len() - c.len(), m.len() as int));
}

/// A result is a success or a failure as it stands, with the text of the error.
pub proof fn law_outcomes_keep_their_side<T: View>(r: Result<T, StorageError>)
    ensures
        r matches Ok(t) ==> outcome(r) == Ok::<T::V, Fault>(t@),
        r matches Err(StorageError::Transport(m)) ==> outcome(r) == Err::<T::V, Fault>(
            Fault::Transport(m@),
        ),
        r matches Err(StorageError::Other(m)) ==> outcome(r) == Err::<T::V, Fault>(
            Fault::Other(m@),
        ),
{
}

} // verus!
