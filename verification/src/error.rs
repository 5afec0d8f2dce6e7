//! The two error types: what a sweep over the mounts can fail with, and what the storage domain
//! is told.
use vstd::prelude::*;
use vstd::string::*;

verus! {

/// A failure of the mount machinery. `source` is the text of the underlying I/O or tool error.
#[derive(Debug, Clone, PartialEq, Eq)]
pub enum NfsError {
    Read(String),
    Umount { mountpoint: String, source: String },
    MountAll { source: String },
    Remount { mountpoint: String, source: String },
}

impl NfsError {
    /// The message shown for the error.
    pub open spec fn message(&self) -> Seq<char> {
        match self {
            NfsError::Read(source) => "read /proc/mounts: "@ + source@,
            NfsError::Umount { mountpoint, source } => "umount -l "@ + mountpoint@ + ": "@ + source@,
            NfsError::MountAll { source } => "mount -a: "@ + source@,
            NfsError::Remount { mountpoint, source } => "remount "@ + mountpoint@ + ": "@ + source@,
        }
    }

    /// The error as one line of text.
    pub fn to_text(&self) -> (r: String)
        ensures
            r@ == self.message(),
    {
        match self {
            NfsError::Read(source) => {
                let mut r: String = "read /proc/mounts: ".to_owned();
                r.append(source.as_str());
                r
            },
            NfsError::Umount { mountpoint, source } => {
                let mut r: String = "umount -l ".to_owned();
                r.append(mountpoint.as_str());
                r.append(": ");
                r.append(source.as_str());
                r
            },
            NfsError::MountAll { source } => {
                let mut r: String = "mount -a: ".to_owned();
                r.append(source.as_str());
                r
            },
            NfsError::Remount { mountpoint, source } => {
                let mut r: String = "remount ".to_owned();
                r.append(mountpoint.as_str());
                r.append(": ");
                r.append(source.as_str());
                r
            },
        }
    }

    /// The text of the underlying error.
    pub open spec fn cause(&self) -> Seq<char> {
        match self {
            NfsError::Read(source) => source@,
            NfsError::Umount { mountpoint: _, source } => source@,
            NfsError::MountAll { source } => source@,
            NfsError::Remount { mountpoint: _, source } => source@,
        }
    }

    /// The text of the underlying error.
    pub fn source(&self) -> (r: &str)
        ensures
            r@ == self.cause(),
    {
        match self {
            NfsError::Read(source) => source.as_str(),
            NfsError::Umount { mountpoint: _, source } => source.as_str(),
            NfsError::MountAll { source } => source.as_str(),
            NfsError::Remount { mountpoint: _, source } => source.as_str(),
        }
    }
}

/// What the storage domain is told when a request fails.
#[derive(Debug, Clone, PartialEq, Eq)]
pub enum StorageError {
    /// The host could not be read or driven.
    Transport(String),
    /// The request itself is refused.
    Other(String),
}

/// The mathematical content of a [`StorageError`].
pub enum Fault {
    Transport(Seq<char>),
    Other(Seq<char>),
}

impl View for StorageError {
    type V = Fault;

    open spec fn view(&self) -> Fault {
        match self {
            StorageError::Transport(m) => Fault::Transport(m@),
            StorageError::Other(m) => Fault::Other(m@),
        }
    }
}

impl StorageError {
    /// The text that the error carries.
    pub open spec fn text(&self) -> Seq<char> {
        match self {
            StorageError::Transport(m) => m@,
            StorageError::Other(m) => m@,
        }
    }

    /// The text that the error carries.
    pub fn message(&self) -> (r: &str)
        ensures
            r@ == self.text(),
    {
        match self {
            StorageError::Transport(m) => m.as_str(),
            StorageError::Other(m) => m.as_str(),
        }
    }
}

/// A result taken by the views of its value and of its error.
pub open spec fn outcome<T: View, E: View>(r: Result<T, E>) -> Result<T::V, E::V> {
    match r {
        Ok(t) => Ok(t@),
        Err(e) => Err(e@),
    }
}

/// An optional value taken by its view.
pub open spec fn maybe<T: View>(o: Option<T>) -> Option<T::V> {
    match o {
        Some(t) => Some(t@),
        None => None,
    }
}

} // verus!
