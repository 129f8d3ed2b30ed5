//! POSIX errno values used across the protocol.
//!
//! The numbers are those of Linux, which is what FUSE expects.

use vstd::prelude::*;

use crate::protocol::Errno;

verus! {

pub const EPERM: Errno = 1;

pub const ENOENT: Errno = 2;

pub const EIO: Errno = 5;

pub const EBADF: Errno = 9;

pub const EAGAIN: Errno = 11;

pub const EACCES: Errno = 13;

pub const EBUSY: Errno = 16;

pub const EEXIST: Errno = 17;

pub const ENOTDIR: Errno = 20;

pub const EISDIR: Errno = 21;

pub const EINVAL: Errno = 22;

pub const ENFILE: Errno = 23;

pub const ENOSPC: Errno = 28;

pub const EROFS: Errno = 30;

pub const ENAMETOOLONG: Errno = 36;

pub const ENOSYS: Errno = 38;

pub const ENOTEMPTY: Errno = 39;

} // verus!
