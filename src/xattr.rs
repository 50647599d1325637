use vstd::prelude::*;

use crate::error::MmError;

verus! {

/// Directory descriptor that stands for the current working directory.
pub const AT_FDCWD: i32 = -100;
/// Do not follow a final symbolic link.
pub const AT_SYMLINK_NOFOLLOW: u32 = 0x100;
/// An empty path names the descriptor itself.
pub const AT_EMPTY_PATH: u32 = 0x1000;
/// Size of the buffer used when a caller passes size 0 to learn an
/// attribute's length: the largest attribute value there can be.
pub const XATTR_QUERY_BUFFER: usize = 0x1_0000;

/// The three forms of each extended-attribute call.
#[derive(Clone, Copy, Debug, PartialEq, Eq, Structural)]
pub enum XattrCall {
    /// `getxattr` and its kin: a path, following a final symbolic link.
    ByPath,
    /// `lgetxattr` and its kin: a path, not following a final symbolic link.
    ByLinkPath,
    /// `fgetxattr` and its kin: an open descriptor.
    ByDescriptor,
}

/// What a call form hands on to the common lookup: the directory (or file)
/// descriptor and the lookup flags.
pub open spec fn call_args_spec(call: XattrCall, fd: i32) -> (i32, u32) {
    match call {
        XattrCall::ByPath => (AT_FDCWD, 0),
        XattrCall::ByLinkPath => (AT_FDCWD, AT_SYMLINK_NOFOLLOW),
        XattrCall::ByDescriptor => (fd, AT_EMPTY_PATH),
    }
}

/// The descriptor and lookup flags of a call form; `fd` is used only by the
/// descriptor form.
pub fn call_args(call: XattrCall, fd: i32) -> (r: (i32, u32))
    ensures
        r == call_args_spec(call, fd),
{
    match call {
        XattrCall::ByPath => (AT_FDCWD, 0),
        XattrCall::ByLinkPath => (AT_FDCWD, AT_SYMLINK_NOFOLLOW),
        XattrCall::ByDescriptor => (fd, AT_EMPTY_PATH),
    }
}

/// The entity whose attributes a call reads or changes.
#[derive(Clone, Copy, Debug, PartialEq, Eq, Structural)]
pub enum XattrTarget {
    /// The open descriptor `fd` itself.
    Descriptor { fd: i32 },
    /// A path looked up from `dirfd` (an absent path counts as empty).
    Path { dirfd: i32, follow: bool },
}

pub open spec fn target_spec(dirfd: i32, has_path: bool, flags: u32) -> XattrTarget {
    if !has_path && flags & AT_EMPTY_PATH != 0 {
        XattrTarget::Descriptor { fd: dirfd }
    } else {
        XattrTarget::Path { dirfd, follow: flags & AT_SYMLINK_NOFOLLOW == 0 }
    }
}

/// The descriptor itself when no path is given and `AT_EMPTY_PATH` is set;
/// otherwise a path lookup from `dirfd`, following a final symbolic link
/// unless `AT_SYMLINK_NOFOLLOW` is set.
pub fn xattr_target(dirfd: i32, has_path: bool, flags: u32) -> (r: XattrTarget)
    ensures
        r == target_spec(dirfd, has_path, flags),
{
    if !has_path && flags & AT_EMPTY_PATH != 0 {
        XattrTarget::Descriptor { fd: dirfd }
    } else {
        XattrTarget::Path { dirfd, follow: flags & AT_SYMLINK_NOFOLLOW == 0 }
    }
}

/// What an open descriptor refers to.
#[derive(Clone, Copy, Debug, PartialEq, Eq, Structural)]
pub enum EntityKind {
    RegularFile,
    Directory,
    Other,
}

/// Only regular files and directories carry extended attributes.
pub fn check_entity(kind: EntityKind) -> (r: Result<(), MmError>)
    ensures
        r is Ok <==> kind != EntityKind::Other,
        r is Err ==> r == Err::<(), MmError>(MmError::OperationNotSupported),
{
    match kind {
        EntityKind::Other => Err(MmError::OperationNotSupported),
        _ => Ok(()),
    }
}

pub open spec fn buffer_len_spec(size: usize) -> usize {
    if size == 0 {
        XATTR_QUERY_BUFFER
    } else {
        size
    }
}

/// The length of the buffer to read a value or a name list into: the
/// caller's size, or the largest value size when size 0 only asks for the
/// length.
pub fn value_buffer_len(size: usize) -> (r: usize)
    ensures
        r == buffer_len_spec(size),
{
    if size == 0 {
        XATTR_QUERY_BUFFER
    } else {
        size
    }
}

/// After `len` bytes were read into the buffer: the call's result, and how
/// many bytes go back to the caller (none when it only asked for the length).
pub fn read_reply(size: usize, len: usize) -> (r: (isize, usize))
    requires
        len <= buffer_len_spec(size),
        len <= isize::MAX,
    ensures
        r.0 == len,
        r.1 == (if size == 0 {
            0
        } else {
            len
        }),
        r.1 <= size,
{
    let copy = if size == 0 {
        0
    } else {
        len
    };
    (len as isize, copy)
}

} // verus!
