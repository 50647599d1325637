use starry_mmap::error::MmError;
use starry_mmap::xattr::{
    call_args, check_entity, read_reply, value_buffer_len, xattr_target, EntityKind, XattrCall,
    XattrTarget, AT_EMPTY_PATH, AT_FDCWD, AT_SYMLINK_NOFOLLOW, XATTR_QUERY_BUFFER,
};

#[test]
fn lookup_flags_match_linux() {
    assert_eq!(AT_FDCWD, linux_raw_sys::general::AT_FDCWD);
    assert_eq!(AT_SYMLINK_NOFOLLOW, linux_raw_sys::general::AT_SYMLINK_NOFOLLOW);
    assert_eq!(AT_EMPTY_PATH, linux_raw_sys::general::AT_EMPTY_PATH);
}

#[test]
fn call_forms_pick_their_lookup() {
    assert_eq!(call_args(XattrCall::ByPath, 5), (AT_FDCWD, 0));
    assert_eq!(call_args(XattrCall::ByLinkPath, 5), (AT_FDCWD, AT_SYMLINK_NOFOLLOW));
    assert_eq!(call_args(XattrCall::ByDescriptor, 5), (5, AT_EMPTY_PATH));
}

#[test]
fn targets_follow_flags() {
    assert_eq!(xattr_target(5, false, AT_EMPTY_PATH), XattrTarget::Descriptor { fd: 5 });
    assert_eq!(xattr_target(5, true, AT_EMPTY_PATH), XattrTarget::Path { dirfd: 5, follow: true });
    assert_eq!(xattr_target(AT_FDCWD, true, 0), XattrTarget::Path { dirfd: AT_FDCWD, follow: true });
    assert_eq!(xattr_target(AT_FDCWD, true, AT_SYMLINK_NOFOLLOW), XattrTarget::Path { dirfd: AT_FDCWD, follow: false });
    assert_eq!(xattr_target(AT_FDCWD, false, 0), XattrTarget::Path { dirfd: AT_FDCWD, follow: true });
}

#[test]
fn only_files_and_directories_have_attributes() {
    assert_eq!(check_entity(EntityKind::RegularFile), Ok(()));
    assert_eq!(check_entity(EntityKind::Directory), Ok(()));
    assert_eq!(check_entity(EntityKind::Other), Err(MmError::OperationNotSupported));
}

#[test]
fn zero_size_only_reports_length() {
    assert_eq!(value_buffer_len(0), XATTR_QUERY_BUFFER);
    assert_eq!(XATTR_QUERY_BUFFER, 65536);
    assert_eq!(value_buffer_len(12), 12);
    assert_eq!(read_reply(0, 7), (7, 0));
    assert_eq!(read_reply(12, 7), (7, 7));
}
