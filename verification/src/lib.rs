//! A verified core for keeping a host's NFS (and SMB/CIFS) mounts alive.
//!
//! The library reads what the host shows and decides what to do about it; running commands and
//! reading files is left to its callers, who hand in what they found and carry out what they are
//! told.
//!
//! * [`mounts`], [`fstab`] and [`exports`] read the mount table, `/etc/fstab` and the exports of a
//!   server: which network mounts there are, how deep they are stacked, which of them are watched,
//!   which are declared but absent.
//! * [`options`] and [`source`] are the grammar of nfs mount options and of `host:/export` sources,
//!   with the safety floor that keeps a mount from hanging when its server goes away.
//! * [`release`] decides what to unmount and drains stacked mountpoints layer by layer;
//!   [`command`] builds the command lines and brings absent mounts back; [`recover`] runs the
//!   recovery of missing and stale mounts as a whole.
//! * [`backend`] is the face shown to the storage domain.
//!
//! What holds across several of these functions stands next to them as public proof functions
//! whose names begin with `law_`; most of them stand in modules of their own, named after what they
//! speak of.
pub mod backend;
pub mod backend_laws;
pub mod command;
pub mod command_laws;
pub mod error;
pub mod export_laws;
pub mod exports;
pub mod filtering;
pub mod fstab;
pub mod grammar_laws;
pub mod mount_laws;
pub mod mounts;
pub mod number;
pub mod option_laws;
pub mod options;
pub mod recover;
pub mod recover_laws;
pub mod release;
pub mod release_laws;
pub mod source;
pub mod source_laws;
pub mod table_laws;
pub mod text;
pub mod text_laws;
pub mod view_laws;
