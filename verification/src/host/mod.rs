//! Host side of the virtual filesystem.
//!
//! Every path is relative to the share root. A path that is rooted or climbs
//! with `..` is refused with [`HostError::PathEscape`].

use vstd::prelude::*;

use crate::path::{Comp, Component, HostPath};
use crate::protocol::FileKind;
use crate::protocol::errno::{
    EACCES, EEXIST, EINVAL, EIO, EISDIR, ENOENT, ENOSPC, ENOTDIR, ENOTEMPTY,
};

pub mod dispatch;
pub mod inode_table;
pub mod laws;
pub mod mem;
pub mod port;
pub mod prefetch;
pub mod request_laws;
pub mod tokio_fs;
pub mod tree;
pub mod watcher;

verus! {

/// Why a host filesystem operation failed.
#[derive(Debug, PartialEq, Eq)]
pub enum HostError {
    NotFound,
    NotADirectory,
    IsADirectory,
    AlreadyExists,
    NotEmpty,
    PermissionDenied,
    PathEscape,
    InvalidName,
    NoSpace,
    Io(String),
}

/// What a failure says, with the text of an I/O failure as characters.
pub enum Failure {
    NotFound,
    NotADirectory,
    IsADirectory,
    AlreadyExists,
    NotEmpty,
    PermissionDenied,
    PathEscape,
    InvalidName,
    NoSpace,
    Io(Seq<char>),
}

impl View for HostError {
    type V = Failure;

    open spec fn view(&self) -> Failure {
        match self {
            HostError::NotFound => Failure::NotFound,
            HostError::NotADirectory => Failure::NotADirectory,
            HostError::IsADirectory => Failure::IsADirectory,
            HostError::AlreadyExists => Failure::AlreadyExists,
            HostError::NotEmpty => Failure::NotEmpty,
            HostError::PermissionDenied => Failure::PermissionDenied,
            HostError::PathEscape => Failure::PathEscape,
            HostError::InvalidName => Failure::InvalidName,
            HostError::NoSpace => Failure::NoSpace,
            HostError::Io(s) => Failure::Io(s@),
        }
    }
}

impl Clone for HostError {
    fn clone(&self) -> (r: Self)
        ensures
            r@ == self@,
    {
        match self {
            HostError::NotFound => HostError::NotFound,
            HostError::NotADirectory => HostError::NotADirectory,
            HostError::IsADirectory => HostError::IsADirectory,
            HostError::AlreadyExists => HostError::AlreadyExists,
            HostError::NotEmpty => HostError::NotEmpty,
            HostError::PermissionDenied => HostError::PermissionDenied,
            HostError::PathEscape => HostError::PathEscape,
            HostError::InvalidName => HostError::InvalidName,
            HostError::NoSpace => HostError::NoSpace,
            HostError::Io(s) => HostError::Io(s.clone()),
        }
    }
}

/// The errno of a failure.
pub open spec fn errno_of(e: Failure) -> i32 {
    match e {
        Failure::NotFound => ENOENT,
        Failure::NotADirectory => ENOTDIR,
        Failure::IsADirectory => EISDIR,
        Failure::AlreadyExists => EEXIST,
        Failure::NotEmpty => ENOTEMPTY,
        Failure::PermissionDenied => EACCES,
        Failure::PathEscape => EACCES,
        Failure::InvalidName => EINVAL,
        Failure::NoSpace => ENOSPC,
        Failure::Io(_) => EIO,
    }
}

impl HostError {
    /// The POSIX errno that the protocol carries for this failure.
    pub fn errno(&self) -> (r: i32)
        ensures
            r == errno_of(self@),
    {
        match self {
            HostError::NotFound => ENOENT,
            HostError::NotADirectory => ENOTDIR,
            HostError::IsADirectory => EISDIR,
            HostError::AlreadyExists => EEXIST,
            HostError::NotEmpty => ENOTEMPTY,
            HostError::PermissionDenied => EACCES,
            HostError::PathEscape => EACCES,
            HostError::InvalidName => EINVAL,
            HostError::NoSpace => ENOSPC,
            HostError::Io(_) => EIO,
        }
    }
}

/// A child of a directory.
#[derive(Debug, PartialEq, Eq)]
pub struct DirChild {
    pub name: String,
    pub kind: FileKind,
}

/// What a directory child says.
pub struct ChildView {
    pub name: Seq<char>,
    pub kind: FileKind,
}

impl View for DirChild {
    type V = ChildView;

    open spec fn view(&self) -> ChildView {
        ChildView { name: self.name@, kind: self.kind }
    }
}

impl Clone for DirChild {
    fn clone(&self) -> (r: Self)
        ensures
            r@ == self@,
    {
        DirChild { name: self.name.clone(), kind: self.kind }
    }
}

/// The views of a sequence of children.
pub open spec fn child_views(v: Seq<DirChild>) -> Seq<ChildView> {
    Seq::new(v.len(), |i: int| v[i]@)
}

/// Whether a component is a name that holds a NUL.
pub open spec fn has_nul(c: Comp) -> bool {
    c matches Comp::Normal(s) && s.contains('\0')
}

/// Whether a component leads out of the share.
pub open spec fn escapes(c: Comp) -> bool {
    c is ParentDir || c is RootDir
}

/// Why a path is refused: a NUL first, then an escape from the share.
pub open spec fn path_failure(p: Seq<Comp>) -> Option<Failure> {
    if exists|i: int| 0 <= i < p.len() && has_nul(#[trigger] p[i]) {
        Some(Failure::InvalidName)
    } else if exists|i: int| 0 <= i < p.len() && escapes(#[trigger] p[i]) {
        Some(Failure::PathEscape)
    } else {
        None
    }
}

fn contains_nul(s: &str) -> (r: bool)
    ensures
        r == s@.contains('\0'),
{
    let x: Vec<char> = crate::text::chars_of(s);
    let mut i: usize = 0;
    while i < x.len()
        invariant
            i <= x.len(),
            x@ == s@,
            forall|j: int| 0 <= j < i ==> x@[j] != '\0',
        decreases x.len() - i,
    {
        if x[i] == '\0' {
            assert(s@[i as int] == '\0');
            return true;
        }
        i += 1;
    }
    false
}

/// Check that a path is relative, holds no NUL and no `..`. The empty path is
/// the share root.
pub fn check_relative(path: &HostPath) -> (r: Result<(), HostError>)
    ensures
        r is Ok <==> path_failure(path@) is None,
        r matches Err(e) ==> Some(e@) == path_failure(path@),
{
    let mut escape: bool = false;
    let mut i: usize = 0;
    while i < path.len()
        invariant
            i <= path@.len(),
            forall|j: int| 0 <= j < i ==> !has_nul(#[trigger] path@[j]),
            escape <==> exists|j: int| 0 <= j < i && escapes(#[trigger] path@[j]),
        decreases path@.len() - i,
    {
        match path.component(i) {
            Component::Normal(s) => {
                if contains_nul(s) {
                    assert(has_nul(path@[i as int]));
                    return Err(HostError::InvalidName);
                }
            },
            Component::CurDir => {},
            Component::ParentDir | Component::RootDir => {
                assert(escapes(path@[i as int]));
                escape = true;
            },
        }
        i += 1;
    }
    if escape {
        Err(HostError::PathEscape)
    } else {
        Ok(())
    }
}

} // verus!
