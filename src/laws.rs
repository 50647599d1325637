use vstd::prelude::*;

use crate::aspace::AddrSpace;
use crate::error::MmError;
use crate::flags::{MappingFlags, MAP_ANONYMOUS, MAP_KNOWN, MAP_SHARED_VALIDATE, MAP_TYPE};
use crate::mmap::{
    clears, decoded_flags, mmap_outcome, mmap_request, reprotects, request_page_size, unmaps,
};

verus! {

/// A request of length zero is refused as invalid, whatever its flags.
pub proof fn law_zero_length_rejected(prot: u32, flags: u32, fd: i32, offset: isize)
    ensures
        mmap_request(0, prot, flags, fd, offset) == Err::<u32, MmError>(MmError::InvalidInput),
{
}

/// A request whose anonymous flag disagrees with its descriptor (flag clear
/// and no descriptor, or flag set and a descriptor) is refused as invalid.
/// Left out: a shared-validate request with unknown flag bits, which is
/// refused as unsupported before the descriptor is looked at.
pub proof fn law_anonymous_needs_no_descriptor(
    length: usize,
    prot: u32,
    flags: u32,
    fd: i32,
    offset: isize,
)
    requires
        !(flags & !MAP_KNOWN != 0 && flags & MAP_TYPE == MAP_SHARED_VALIDATE),
        (flags & MAP_ANONYMOUS != 0) != (fd <= 0),
    ensures
        mmap_request(length, prot, flags, fd, offset) == Err::<u32, MmError>(MmError::InvalidInput),
{
    assert((flags & MAP_KNOWN) & MAP_ANONYMOUS == flags & MAP_ANONYMOUS) by (bit_vector)
        requires
            MAP_KNOWN == 0x7816_c83fu32,
            MAP_ANONYMOUS == 0x20u32,
    ;
    if let Ok(f) = decoded_flags(flags) {
        assert(f & MAP_ANONYMOUS == flags & MAP_ANONYMOUS);
    }
}

/// The start address of every successful mapping lies on a boundary of the
/// page size that its flags ask for.
pub proof fn law_mapping_page_aligned(
    before: AddrSpace,
    after: AddrSpace,
    a: usize,
    addr: usize,
    length: usize,
    prot: u32,
    flags: u32,
    fd: i32,
    offset: isize,
    file: Option<crate::mmap::FileSource>,
)
    requires
        mmap_outcome(before, after, a, addr, length, prot, flags, fd, offset, file),
    ensures
        mmap_request(length, prot, flags, fd, offset) matches Ok(f) && a as int % request_page_size(
            f,
        ).spec_bytes() as int == 0,
{
}

/// After a range is unmapped, none of its addresses can be read or written;
/// and a later mapping over any of them holds none of the bytes written
/// before: in the model, where only anonymous content is kept, it reads zero
/// there.
pub proof fn law_unmapped_range_forgotten(
    before: AddrSpace,
    unmapped: AddrSpace,
    s: int,
    e: int,
    remapped: AddrSpace,
    a: usize,
    addr: usize,
    length: usize,
    prot: u32,
    flags: u32,
    fd: i32,
    offset: isize,
    file: Option<crate::mmap::FileSource>,
    x: int,
)
    requires
        unmaps(before, unmapped, s, e),
        mmap_outcome(unmapped, remapped, a, addr, length, prot, flags, fd, offset, file),
        s <= x < e,
    ensures
        !unmapped.mapped(x),
        !unmapped.readable(x),
        !unmapped.writable(x),
        remapped.mapped(x) ==> remapped.byte_at(x) == 0,
{
    assert(unmapped.attrs_at(x) == None::<crate::aspace::AreaAttrs>);
    assert(unmapped.written(x) == None::<u8>);
}

/// Changing the rights of a range, and changing them back, keeps every byte.
pub proof fn law_protect_keeps_bytes(
    before: AddrSpace,
    mid: AddrSpace,
    after: AddrSpace,
    s1: int,
    e1: int,
    f1: MappingFlags,
    s2: int,
    e2: int,
    f2: MappingFlags,
)
    requires
        reprotects(before, mid, s1, e1, f1),
        reprotects(mid, after, s2, e2, f2),
    ensures
        forall|x: int| #[trigger] after.byte_at(x) == before.byte_at(x),
{
    assert forall|x: int| #[trigger] after.byte_at(x) == before.byte_at(x) by {
        assert(after.written(x) == mid.written(x));
        assert(mid.written(x) == before.written(x));
    }
}

/// Evicting the pages of a range keeps every address as readable as it was,
/// and the range reads zero afterwards.
pub proof fn law_evicted_range_stays_readable(before: AddrSpace, after: AddrSpace, s: int, e: int)
    requires
        clears(before, after, s, e),
    ensures
        forall|x: int| #[trigger] after.readable(x) == before.readable(x),
        forall|x: int| s <= x < e ==> #[trigger] after.byte_at(x) == 0,
{
    assert forall|x: int| s <= x < e implies #[trigger] after.byte_at(x) == 0 by {
        assert(after.written(x) == None::<u8>);
    }
}

} // verus!
