use vstd::prelude::*;

verus! {

/// Page can be read.
pub const PROT_READ: u32 = 0x1;
/// Page can be written.
pub const PROT_WRITE: u32 = 0x2;
/// Page can be executed.
pub const PROT_EXEC: u32 = 0x4;
/// Extend a protection change down to the start of a grows-down area.
pub const PROT_GROWSDOWN: u32 = 0x0100_0000;
/// Extend a protection change up to the end of a grows-up area.
pub const PROT_GROWSUP: u32 = 0x0200_0000;
/// Every protection bit that is understood.
pub const PROT_KNOWN: u32 = 0x0300_0007;

/// Share changes.
pub const MAP_SHARED: u32 = 0x1;
/// Changes are private: pages are copied on write.
pub const MAP_PRIVATE: u32 = 0x2;
/// Share changes, but fail on unknown flags.
pub const MAP_SHARED_VALIDATE: u32 = 0x3;
/// Mask of the mapping-type bits.
pub const MAP_TYPE: u32 = 0xf;
/// Place the mapping exactly at the hint, replacing what is there.
pub const MAP_FIXED: u32 = 0x10;
/// Do not use a file.
pub const MAP_ANONYMOUS: u32 = 0x20;
/// Deprecated and ignored.
pub const MAP_DENYWRITE: u32 = 0x800;
/// Do not check for reservations.
pub const MAP_NORESERVE: u32 = 0x4000;
/// Populate the mapping eagerly.
pub const MAP_POPULATE: u32 = 0x8000;
/// The allocation is for a stack.
pub const MAP_STACK: u32 = 0x2_0000;
/// Use huge pages (2 MiB unless a size is selected).
pub const MAP_HUGETLB: u32 = 0x4_0000;
/// Like `MAP_FIXED`, but fail instead of replacing an existing mapping.
pub const MAP_FIXED_NOREPLACE: u32 = 0x10_0000;
/// Huge-page size selector for 1 GiB pages (used with `MAP_HUGETLB`).
pub const MAP_HUGE_1GB: u32 = 0x7800_0000;
/// Every mapping flag bit that is understood.
pub const MAP_KNOWN: u32 = 0x7816_c83f;

/// No special treatment.
pub const MADV_NORMAL: u32 = 0;
/// Expect random page references.
pub const MADV_RANDOM: u32 = 1;
/// Expect sequential page references.
pub const MADV_SEQUENTIAL: u32 = 2;
/// The pages will be needed soon.
pub const MADV_WILLNEED: u32 = 3;
/// The pages are not needed for now.
pub const MADV_DONTNEED: u32 = 4;
/// Remove the pages from the mapping.
pub const MADV_REMOVE: u32 = 9;
/// Do not inherit the range across fork.
pub const MADV_DONTFORK: u32 = 10;
/// Inherit the range across fork again.
pub const MADV_DOFORK: u32 = 11;

/// The standard page size in bytes.
pub const PAGE_SIZE_4K: usize = 0x1000;
/// The 2 MiB huge-page size in bytes.
pub const PAGE_SIZE_2M: usize = 0x20_0000;
/// The 1 GiB huge-page size in bytes.
pub const PAGE_SIZE_1G: usize = 0x4000_0000;

/// Granularity of a mapping.
#[derive(Clone, Copy, Debug, PartialEq, Eq, Structural)]
pub enum PageSize {
    Size4K,
    Size2M,
    Size1G,
}

impl PageSize {
    pub open spec fn spec_bytes(self) -> usize {
        match self {
            PageSize::Size4K => 0x1000,
            PageSize::Size2M => 0x20_0000,
            PageSize::Size1G => 0x4000_0000,
        }
    }

    /// The page size in bytes.
    #[verifier::when_used_as_spec(spec_bytes)]
    pub fn bytes(self) -> (r: usize)
        ensures
            r == self.spec_bytes(),
    {
        match self {
            PageSize::Size4K => PAGE_SIZE_4K,
            PageSize::Size2M => PAGE_SIZE_2M,
            PageSize::Size1G => PAGE_SIZE_1G,
        }
    }
}

/// Whether `align` is one of the supported page sizes.
pub open spec fn is_page_size(align: usize) -> bool {
    align == 0x1000 || align == 0x20_0000 || align == 0x4000_0000
}

/// The greatest multiple of `align` that is not above `addr`.
pub open spec fn align_down_spec(addr: int, align: int) -> int {
    addr - addr % align
}

/// The least multiple of `align` that is not below `addr`.
pub open spec fn align_up_spec(addr: int, align: int) -> int {
    if addr % align == 0 {
        addr
    } else {
        addr - addr % align + align
    }
}

/// Relies on `memory_addr::align_down`: `addr` rounded down to a multiple of a
/// power-of-two `align`.
pub assume_specification[ memory_addr::align_down ](addr: usize, align: usize) -> (r: usize)
    requires
        is_page_size(align),
    ensures
        r == align_down_spec(addr as int, align as int),
;

/// Relies on `memory_addr::align_up`: `addr` rounded up to a multiple of a
/// power-of-two `align`. The source computes `addr + align` before it
/// subtracts one, so `addr + align` must fit.
pub assume_specification[ memory_addr::align_up ](addr: usize, align: usize) -> (r: usize)
    requires
        is_page_size(align),
        addr + align <= usize::MAX,
    ensures
        r == align_up_spec(addr as int, align as int),
;

/// Relies on `memory_addr::align_up_4k`: `addr` rounded up to a multiple of
/// 4096. It calls `align_up`, which computes `addr + 4096` first, so that
/// sum must fit.
pub assume_specification[ memory_addr::align_up_4k ](addr: usize) -> (r: usize)
    requires
        addr + 4096 <= usize::MAX,
    ensures
        r == align_up_spec(addr as int, 4096),
;

/// Relies on `memory_addr::is_aligned`: whether `addr` is a multiple of a
/// power-of-two `align`.
pub assume_specification[ memory_addr::is_aligned ](addr: usize, align: usize) -> (r: bool)
    requires
        is_page_size(align),
    ensures
        r == (addr % align == 0),
;

/// Access rights of an area.
#[derive(Clone, Copy, Debug, PartialEq, Eq, Structural)]
pub struct MappingFlags {
    pub read: bool,
    pub write: bool,
    pub execute: bool,
    pub user: bool,
}

/// The access rights that protection bits `prot` grant to user code.
pub open spec fn flags_of_prot(prot: u32) -> MappingFlags {
    MappingFlags {
        read: prot & PROT_READ != 0,
        write: prot & PROT_WRITE != 0,
        execute: prot & PROT_EXEC != 0,
        user: true,
    }
}

/// Access rights from protection bits: always user-accessible; read, write and
/// execute only where the matching bit is set.
pub fn mapping_flags_from_prot(prot: u32) -> (r: MappingFlags)
    ensures
        r == flags_of_prot(prot),
{
    MappingFlags {
        read: prot & PROT_READ != 0,
        write: prot & PROT_WRITE != 0,
        execute: prot & PROT_EXEC != 0,
        user: true,
    }
}

/// The protection bits that grant the read, write and execute rights of `f`.
pub open spec fn prot_of_flags(f: MappingFlags) -> u32 {
    (if f.read { PROT_READ } else { 0 }) | (if f.write { PROT_WRITE } else { 0 }) | (if f.execute {
        PROT_EXEC
    } else {
        0
    })
}

/// Protection bits for the read, write and execute rights of `f`.
pub fn prot_from_flags(f: MappingFlags) -> (r: u32)
    ensures
        r == prot_of_flags(f),
        r & !PROT_KNOWN == 0,
        flags_of_prot(r) == (MappingFlags { user: true, ..f }),
{
    let r: u32 = (if f.read { PROT_READ } else { 0 }) | (if f.write { PROT_WRITE } else { 0 }) | (
    if f.execute {
        PROT_EXEC
    } else {
        0
    });
    proof {
        let a: u32 = if f.read { 1 } else { 0 };
        let b: u32 = if f.write { 2 } else { 0 };
        let c: u32 = if f.execute { 4 } else { 0 };
        assert(((a | b | c) & !0x0300_0007u32 == 0) && (((a | b | c) & 1 != 0) == (a == 1)) && (((a
            | b | c) & 2 != 0) == (b == 2)) && (((a | b | c) & 4 != 0) == (c == 4))) by (bit_vector)
            requires
                a == 0 || a == 1,
                b == 0 || b == 2,
                c == 0 || c == 4,
        ;
    }
    r
}

} // verus!
