use vstd::prelude::*;

use crate::aspace::{allows, AddrSpace, AreaAttrs, Backend, Store};
use crate::error::MmError;
use crate::flags::{
    align_down_spec, align_up_spec, flags_of_prot, mapping_flags_from_prot, prot_from_flags,
    MappingFlags, PageSize, MADV_DOFORK, MADV_DONTFORK, MADV_DONTNEED, MADV_NORMAL, MADV_RANDOM,
    MADV_REMOVE, MADV_SEQUENTIAL, MADV_WILLNEED, MAP_ANONYMOUS, MAP_FIXED, MAP_FIXED_NOREPLACE,
    MAP_HUGETLB, MAP_HUGE_1GB, MAP_KNOWN, MAP_POPULATE, MAP_PRIVATE, MAP_SHARED,
    MAP_SHARED_VALIDATE, MAP_TYPE, PAGE_SIZE_4K, PROT_GROWSDOWN, PROT_GROWSUP, PROT_KNOWN,
};

verus! {

/// What a device offers to a shared mapping of it.
#[derive(Clone, Copy, Debug, PartialEq, Eq, Structural)]
pub enum DeviceMmap {
    /// The device cannot be mapped.
    Unmappable,
    /// The device's contents can be mapped read-only.
    ReadOnly,
    /// The device is the physical range `[start, end)`.
    Physical { start: usize, end: usize },
    /// The device is backed by a page cache.
    Cache { cache: u64 },
}

/// What a file descriptor resolves to, as far as mapping it is concerned.
#[derive(Clone, Copy, Debug, PartialEq, Eq, Structural)]
pub enum FileSource {
    /// A regular file with a page cache, opened with `open_flags`.
    Cached { cache: u64, open_flags: u32 },
    /// A device, opened with `open_flags`; anything else that is not a cached
    /// file counts as a device that is `DeviceMmap::Unmappable`.
    Direct { device: u64, open_flags: u32, mmap: DeviceMmap },
}

/// The store that a private mapping of `src` copies its pages from.
pub open spec fn store_of(src: FileSource) -> Store {
    match src {
        FileSource::Cached { cache, .. } => Store::Cached { cache },
        FileSource::Direct { device, .. } => Store::Device { device },
    }
}

/// The mapping flags after decoding: unknown bits are dropped, except that a
/// shared-validate request with unknown bits is refused.
pub open spec fn decoded_flags(flags: u32) -> Result<u32, MmError> {
    if flags & !MAP_KNOWN == 0 {
        Ok(flags)
    } else if flags & MAP_TYPE == MAP_SHARED_VALIDATE {
        Err(MmError::OperationNotSupported)
    } else {
        Ok(flags & MAP_KNOWN)
    }
}

/// Whether the mapping-type bits of decoded flags `f` name a known type.
pub open spec fn type_ok(f: u32) -> bool {
    let t = f & MAP_TYPE;
    t == MAP_PRIVATE || t == MAP_SHARED || t == MAP_SHARED_VALIDATE
}

/// The checks that `sys_mmap` makes before it touches the address space, in
/// order: the decoded flags, or the first error. Protection bits that are not
/// understood are refused last, after the checks on flags, descriptor and
/// offset.
pub open spec fn mmap_request(length: usize, prot: u32, flags: u32, fd: i32, offset: isize) -> Result<
    u32,
    MmError,
> {
    if length == 0 {
        Err(MmError::InvalidInput)
    } else {
        match decoded_flags(flags) {
            Err(e) => Err(e),
            Ok(f) => {
                if !type_ok(f) {
                    Err(MmError::InvalidInput)
                } else if (f & MAP_ANONYMOUS != 0) != (fd <= 0) {
                    Err(MmError::InvalidInput)
                } else if fd <= 0 && offset != 0 {
                    Err(MmError::InvalidInput)
                } else if offset < 0 {
                    Err(MmError::InvalidInput)
                } else if offset % 4096 != 0 {
                    Err(MmError::InvalidInput)
                } else if prot & !PROT_KNOWN != 0 {
                    Err(MmError::InvalidInput)
                } else {
                    Ok(f)
                }
            },
        }
    }
}

/// The page size that decoded flags `f` ask for.
pub open spec fn request_page_size(f: u32) -> PageSize {
    if f & MAP_HUGE_1GB == MAP_HUGE_1GB && f & MAP_HUGETLB != 0 {
        PageSize::Size1G
    } else if f & MAP_HUGETLB != 0 {
        PageSize::Size2M
    } else {
        PageSize::Size4K
    }
}

/// `[addr, addr + length)` widened to page boundaries of `ps`, as a start
/// and a length; `None` when the widened end does not fit in an address.
pub open spec fn geometry(addr: usize, length: usize, ps: PageSize) -> Option<(usize, usize)> {
    let p = ps.spec_bytes() as int;
    if addr + length + p > usize::MAX {
        None
    } else {
        let s = align_down_spec(addr as int, p);
        Some((s as usize, (align_up_spec(addr + length, p) - s) as usize))
    }
}

/// Whether decoded flags `f` ask for fixed placement.
pub open spec fn is_fixed(f: u32) -> bool {
    f & (MAP_FIXED | MAP_FIXED_NOREPLACE) != 0
}

/// Whether decoded flags `f` ask for fixed placement over whatever is there.
pub open spec fn replaces(f: u32) -> bool {
    is_fixed(f) && f & MAP_FIXED_NOREPLACE == 0
}

/// The backend of a new mapping at `start` of `len` bytes, and the length
/// actually mapped (a physical range may be shorter).
pub open spec fn backend_for(
    map_type: u32,
    file: Option<FileSource>,
    start: usize,
    ps: PageSize,
    offset: usize,
    len: usize,
) -> Result<(Backend, usize), MmError> {
    if map_type == MAP_PRIVATE {
        match file {
            Some(src) => Ok(
                (
                    Backend::CopyOnWrite {
                        page_size: ps,
                        store: store_of(src),
                        offset: offset as u64,
                        anchor: start,
                    },
                    len,
                ),
            ),
            None => Ok((Backend::Alloc { page_size: ps }, len)),
        }
    } else {
        match file {
            None => Ok((Backend::SharedPages { pool_size: len, anchor: start }, len)),
            Some(FileSource::Cached { cache, open_flags }) => Ok(
                (Backend::SharedFile { cache, open_flags, offset: offset as u64, anchor: start }, len),
            ),
            Some(FileSource::Direct { device, open_flags, mmap }) => match mmap {
                DeviceMmap::Unmappable => Err(MmError::NoSuchDevice),
                DeviceMmap::ReadOnly => Ok(
                    (
                        Backend::CopyOnWrite {
                            page_size: ps,
                            store: Store::Device { device },
                            offset: offset as u64,
                            anchor: start,
                        },
                        len,
                    ),
                ),
                DeviceMmap::Physical { start: p, end: q } => {
                    if p + offset >= q {
                        Err(MmError::InvalidInput)
                    } else {
                        let avail = align_down_spec(q - (p + offset), ps.spec_bytes() as int);
                        Ok(
                            (
                                Backend::Linear { bias: (start - (p + offset)) as i128 },
                                if len <= avail {
                                    len
                                } else {
                                    avail as usize
                                },
                            ),
                        )
                    }
                },
                DeviceMmap::Cache { cache } => Ok(
                    (
                        Backend::SharedFile {
                            cache,
                            open_flags,
                            offset: offset as u64,
                            anchor: start,
                        },
                        len,
                    ),
                ),
            },
        }
    }
}

/// Makes the checks of `mmap_request`.
pub fn check_mmap_request(length: usize, prot: u32, flags: u32, fd: i32, offset: isize) -> (r:
    Result<u32, MmError>)
    ensures
        r == mmap_request(length, prot, flags, fd, offset),
{
    if length == 0 {
        return Err(MmError::InvalidInput);
    }
    let f = if flags & !MAP_KNOWN == 0 {
        flags
    } else if flags & MAP_TYPE == MAP_SHARED_VALIDATE {
        return Err(MmError::OperationNotSupported);
    } else {
        flags & MAP_KNOWN
    };
    let t = f & MAP_TYPE;
    if !(t == MAP_PRIVATE || t == MAP_SHARED || t == MAP_SHARED_VALIDATE) {
        return Err(MmError::InvalidInput);
    }
    if (f & MAP_ANONYMOUS != 0) != (fd <= 0) {
        return Err(MmError::InvalidInput);
    }
    if fd <= 0 && offset != 0 {
        return Err(MmError::InvalidInput);
    }
    if offset < 0 {
        return Err(MmError::InvalidInput);
    }
    if !memory_addr::is_aligned(offset as usize, PAGE_SIZE_4K) {
        return Err(MmError::InvalidInput);
    }
    if prot & !PROT_KNOWN != 0 {
        return Err(MmError::InvalidInput);
    }
    Ok(f)
}

/// The page size that decoded flags `f` ask for.
pub fn page_size_of(f: u32) -> (r: PageSize)
    ensures
        r == request_page_size(f),
{
    if f & MAP_HUGE_1GB == MAP_HUGE_1GB && f & MAP_HUGETLB != 0 {
        PageSize::Size1G
    } else if f & MAP_HUGETLB != 0 {
        PageSize::Size2M
    } else {
        PageSize::Size4K
    }
}

/// Widens `[addr, addr + length)` to page boundaries of `ps`.
pub fn map_geometry(addr: usize, length: usize, ps: PageSize) -> (r: Option<(usize, usize)>)
    ensures
        r == geometry(addr, length, ps),
{
    let p = ps.bytes();
    if addr > usize::MAX - length || addr + length > usize::MAX - p {
        return None;
    }
    let s = memory_addr::align_down(addr, p);
    let e = memory_addr::align_up(addr + length, p);
    Some((s, e - s))
}

/// Chooses the backend of a new mapping at `start`, and the length that it
/// can map.
pub fn select_backend(
    map_type: u32,
    file: Option<FileSource>,
    start: usize,
    ps: PageSize,
    offset: usize,
    len: usize,
) -> (r: Result<(Backend, usize), MmError>)
    ensures
        r == backend_for(map_type, file, start, ps, offset, len),
{
    if map_type == MAP_PRIVATE {
        return match file {
            Some(src) => {
                let store = match src {
                    FileSource::Cached { cache, .. } => Store::Cached { cache },
                    FileSource::Direct { device, .. } => Store::Device { device },
                };
                Ok(
                    (
                        Backend::CopyOnWrite {
                            page_size: ps,
                            store,
                            offset: offset as u64,
                            anchor: start,
                        },
                        len,
                    ),
                )
            },
            None => Ok((Backend::Alloc { page_size: ps }, len)),
        };
    }
    match file {
        None => Ok((Backend::SharedPages { pool_size: len, anchor: start }, len)),
        Some(FileSource::Cached { cache, open_flags }) => Ok(
            (Backend::SharedFile { cache, open_flags, offset: offset as u64, anchor: start }, len),
        ),
        Some(FileSource::Direct { device, open_flags, mmap }) => match mmap {
            DeviceMmap::Unmappable => Err(MmError::NoSuchDevice),
            DeviceMmap::ReadOnly => Ok(
                (
                    Backend::CopyOnWrite {
                        page_size: ps,
                        store: Store::Device { device },
                        offset: offset as u64,
                        anchor: start,
                    },
                    len,
                ),
            ),
            DeviceMmap::Physical { start: p, end: q } => {
                if p > usize::MAX - offset || p + offset >= q {
                    return Err(MmError::InvalidInput);
                }
                let phys = p + offset;
                let avail = memory_addr::align_down(q - phys, ps.bytes());
                let bias: i128 = start as i128 - phys as i128;
                Ok((Backend::Linear { bias }, if len <= avail {
                    len
                } else {
                    avail
                }))
            },
            DeviceMmap::Cache { cache } => Ok(
                (Backend::SharedFile { cache, open_flags, offset: offset as u64, anchor: start }, len),
            ),
        },
    }
}

proof fn lemma_aligned_4k(x: int, ps: PageSize)
    requires
        x % (ps.spec_bytes() as int) == 0,
    ensures
        x % 4096 == 0,
{
    match ps {
        PageSize::Size4K => {},
        PageSize::Size2M => {
            assert(x % 4096 == 0) by (nonlinear_arith)
                requires
                    x % 0x20_0000 == 0,
            ;
        },
        PageSize::Size1G => {
            assert(x % 4096 == 0) by (nonlinear_arith)
                requires
                    x % 0x4000_0000 == 0,
            ;
        },
    }
}

proof fn lemma_align_down(x: int, ps: PageSize)
    requires
        x >= 0,
    ensures
        align_down_spec(x, ps.spec_bytes() as int) % (ps.spec_bytes() as int) == 0,
        0 <= align_down_spec(x, ps.spec_bytes() as int) <= x,
{
    let p = ps.spec_bytes() as int;
    vstd::arithmetic::div_mod::lemma_fundamental_div_mod(x, p);
    vstd::arithmetic::div_mod::lemma_mod_multiples_basic(x / p, p);
    assert(x - x % p == (x / p) * p) by (nonlinear_arith)
        requires
            x == p * (x / p) + (x % p),
    ;
}

proof fn lemma_align_up(x: int, ps: PageSize)
    requires
        x >= 0,
    ensures
        align_up_spec(x, ps.spec_bytes() as int) % (ps.spec_bytes() as int) == 0,
        align_up_spec(x, ps.spec_bytes() as int) >= x,
{
    let p = ps.spec_bytes() as int;
    lemma_align_down(x, ps);
    if x % p != 0 {
        vstd::arithmetic::div_mod::lemma_mod_add_multiples_vanish(x - x % p, p);
    }
}

/// The backend chosen for a range on page boundaries of `ps` maps a length
/// on its own page boundaries, from a start on them.
proof fn lemma_backend_fits(
    map_type: u32,
    src: Option<FileSource>,
    start: usize,
    ps: PageSize,
    offset: usize,
    len: usize,
)
    requires
        start as int % ps.spec_bytes() as int == 0,
        len as int % ps.spec_bytes() as int == 0,
        backend_for(map_type, src, start, ps, offset, len) is Ok,
    ensures
        ({
            let (b, mlen) = backend_for(map_type, src, start, ps, offset, len)->Ok_0;
            let bp = b.spec_page_size().spec_bytes() as int;
            &&& start as int % bp == 0
            &&& mlen as int % bp == 0
            &&& mlen <= len
        }),
{
    let (b, mlen) = backend_for(map_type, src, start, ps, offset, len)->Ok_0;
    lemma_aligned_4k(start as int, ps);
    lemma_aligned_4k(len as int, ps);
    if let Some(FileSource::Direct { device, open_flags, mmap }) = src {
        if let DeviceMmap::Physical { start: p, end: q } = mmap {
            if map_type != MAP_PRIVATE {
                lemma_align_down(q - (p + offset), ps);
                lemma_aligned_4k(align_down_spec(q - (p + offset), ps.spec_bytes() as int), ps);
            }
        }
    }
}

proof fn lemma_backend_any_start(
    map_type: u32,
    src: Option<FileSource>,
    s1: usize,
    s2: usize,
    ps: PageSize,
    offset: usize,
    len: usize,
)
    ensures
        backend_for(map_type, src, s1, ps, offset, len) is Ok <==> backend_for(
            map_type,
            src,
            s2,
            ps,
            offset,
            len,
        ) is Ok,
        backend_for(map_type, src, s1, ps, offset, len) is Ok ==> backend_for(
            map_type,
            src,
            s1,
            ps,
            offset,
            len,
        )->Ok_0.1 == backend_for(map_type, src, s2, ps, offset, len)->Ok_0.1,
{
}

/// The range that a replacing fixed mapping unmaps before it maps, when the
/// request gets that far.
pub open spec fn replaced_range(
    before: AddrSpace,
    addr: usize,
    length: usize,
    prot: u32,
    flags: u32,
    fd: i32,
    offset: isize,
) -> Option<(usize, usize)> {
    match mmap_request(length, prot, flags, fd, offset) {
        Ok(f) => match geometry(addr, length, request_page_size(f)) {
            Some((s, len)) => if replaces(f) && before.editable(s as int, len as int) {
                Some((s, len))
            } else {
                None
            },
            None => None,
        },
        Err(_) => None,
    }
}

/// Whether `x` lies in the range that `sys_mmap` unmapped first.
pub open spec fn in_replaced(
    before: AddrSpace,
    addr: usize,
    length: usize,
    prot: u32,
    flags: u32,
    fd: i32,
    offset: isize,
    x: int,
) -> bool {
    replaced_range(before, addr, length, prot, flags, fd, offset) matches Some((s, len)) && s <= x
        < s + len
}

/// The file that a request maps: none for an anonymous one.
pub open spec fn source_of(fd: i32, file: Option<FileSource>) -> Option<FileSource> {
    if fd > 0 {
        file
    } else {
        None
    }
}

/// Whether `x` is in the range `[s, s + len)` that a request with decoded
/// flags `f` unmaps before it maps: only a replacing fixed request does, and
/// only when the whole range can be unmapped.
pub open spec fn unmapped_first(before: AddrSpace, f: u32, s: usize, len: usize, x: int) -> bool {
    replaces(f) && before.editable(s as int, len as int) && s <= x < s + len
}

/// What mapping a checked request (decoded flags `f`, widened range
/// `[s, s + len)` for page size `ps`) at `a` leaves behind: `a` is on a
/// boundary of `ps` (and is `s` for a fixed request), the new area with the
/// chosen backend and the rights of `prot` covers the mapped length from `a`
/// with nothing written, and was free before unless the request is fixed;
/// a request that is not fixed lands at or above `s` whenever a free range
/// fits there;
/// a replacing fixed request has unmapped its range first; every other
/// address is as before.
pub open spec fn placed_outcome(
    before: AddrSpace,
    after: AddrSpace,
    a: usize,
    f: u32,
    ps: PageSize,
    s: usize,
    len: usize,
    prot: u32,
    src: Option<FileSource>,
    offset: usize,
) -> bool {
    match backend_for(f & MAP_TYPE, src, a, ps, offset, len) {
        Err(_) => false,
        Ok((b, mlen)) => {
            let attrs = AreaAttrs { flags: flags_of_prot(prot), backend: b, dontfork: false };
            &&& mlen > 0
            &&& a as int % ps.spec_bytes() as int == 0
            &&& is_fixed(f) ==> a == s
            &&& !is_fixed(f) ==> before.vacant(a as int, a + mlen)
            &&& !is_fixed(f) ==> a >= s || forall|c: int|
                c >= s ==> !#[trigger] before.free_fit(c, len as int, ps)
            &&& forall|x: int|
                #[trigger] after.attrs_at(x) == (if a <= x < a + mlen {
                    Some(attrs)
                } else if unmapped_first(before, f, s, len, x) {
                    None
                } else {
                    before.attrs_at(x)
                })
            &&& forall|x: int|
                #[trigger] after.written(x) == (if a <= x < a + mlen {
                    None
                } else if unmapped_first(before, f, s, len, x) {
                    None
                } else {
                    before.written(x)
                })
        },
    }
}

/// What a successful `sys_mmap` that returned `a` leaves behind: the
/// `placed_outcome` of its checked request.
pub open spec fn mmap_outcome(
    before: AddrSpace,
    after: AddrSpace,
    a: usize,
    addr: usize,
    length: usize,
    prot: u32,
    flags: u32,
    fd: i32,
    offset: isize,
    file: Option<FileSource>,
) -> bool {
    match mmap_request(length, prot, flags, fd, offset) {
        Err(_) => false,
        Ok(f) => {
            let ps = request_page_size(f);
            match geometry(addr, length, ps) {
                None => false,
                Some((s, len)) => placed_outcome(
                    before,
                    after,
                    a,
                    f,
                    ps,
                    s,
                    len,
                    prot,
                    source_of(fd, file),
                    offset as usize,
                ),
            }
        },
    }
}

/// A fixed request whose backend can be chosen, over a widened range inside
/// the window that is free (or, when it may replace, can be unmapped as a
/// whole): such a request is owed success.
pub open spec fn fixed_fits(
    before: AddrSpace,
    f: u32,
    ps: PageSize,
    s: usize,
    len: usize,
    fd: i32,
    file: Option<FileSource>,
    offset: usize,
) -> bool {
    &&& is_fixed(f)
    &&& fd > 0 ==> file is Some
    &&& before.spec_base() <= s
    &&& s + len <= before.spec_end()
    &&& replaces(f) ==> before.editable(s as int, len as int)
    &&& backend_for(f & MAP_TYPE, source_of(fd, file), s, ps, offset, len) matches Ok((b, mlen))
    &&& mlen > 0
    &&& !replaces(f) ==> before.vacant(s as int, s + mlen)
}

/// A request that is not fixed, whose backend can be chosen, and for whose
/// widened length the window has a free range on a page boundary: such a
/// request is owed success.
pub open spec fn free_fits(
    before: AddrSpace,
    f: u32,
    ps: PageSize,
    s: usize,
    len: usize,
    fd: i32,
    file: Option<FileSource>,
    offset: usize,
) -> bool {
    &&& !is_fixed(f)
    &&& fd > 0 ==> file is Some
    &&& backend_for(f & MAP_TYPE, source_of(fd, file), s, ps, offset, len) matches Ok((b, mlen))
    &&& mlen > 0
    &&& exists|c: int| #[trigger] before.free_fit(c, len as int, ps)
}

/// `free_fits` for the checked request of a `sys_mmap` call.
pub open spec fn free_request_fits(
    before: AddrSpace,
    addr: usize,
    length: usize,
    prot: u32,
    flags: u32,
    fd: i32,
    offset: isize,
    file: Option<FileSource>,
) -> bool {
    match mmap_request(length, prot, flags, fd, offset) {
        Err(_) => false,
        Ok(f) => {
            let ps = request_page_size(f);
            match geometry(addr, length, ps) {
                None => false,
                Some((s, len)) => free_fits(before, f, ps, s, len, fd, file, offset as usize),
            }
        },
    }
}

/// No range of the widened length of a checked `sys_mmap` request fits
/// anywhere in the window.
pub open spec fn no_room(
    before: AddrSpace,
    addr: usize,
    length: usize,
    prot: u32,
    flags: u32,
    fd: i32,
    offset: isize,
) -> bool {
    match mmap_request(length, prot, flags, fd, offset) {
        Err(_) => false,
        Ok(f) => {
            let ps = request_page_size(f);
            match geometry(addr, length, ps) {
                None => false,
                Some((s, len)) => forall|c: int| !#[trigger] before.free_fit(c, len as int, ps),
            }
        },
    }
}

/// `fixed_fits` for the checked request of a `sys_mmap` call.
pub open spec fn fixed_request_fits(
    before: AddrSpace,
    addr: usize,
    length: usize,
    prot: u32,
    flags: u32,
    fd: i32,
    offset: isize,
    file: Option<FileSource>,
) -> bool {
    match mmap_request(length, prot, flags, fd, offset) {
        Err(_) => false,
        Ok(f) => {
            let ps = request_page_size(f);
            match geometry(addr, length, ps) {
                None => false,
                Some((s, len)) => fixed_fits(before, f, ps, s, len, fd, file, offset as usize),
            }
        },
    }
}

/// Finds where a request of `len` bytes at the widened hint `s` goes: exactly
/// at `s` for a fixed request (after unmapping what is there, unless it must
/// not replace), else the first free range from `s` on, or from the window's
/// base.
fn place(aspace: &mut AddrSpace, f: u32, s: usize, len: usize, ps: PageSize) -> (r: Result<
    usize,
    MmError,
>)
    requires
        old(aspace).wf(),
    ensures
        final(aspace).wf(),
        final(aspace).spec_base() == old(aspace).spec_base(),
        final(aspace).spec_end() == old(aspace).spec_end(),
        replaces(f) ==> (r is Ok <==> old(aspace).editable(s as int, len as int)),
        replaces(f) && r is Err ==> r == Err::<usize, MmError>(MmError::InvalidInput),
        is_fixed(f) && !replaces(f) ==> r == Ok::<usize, MmError>(s),
        is_fixed(f) ==> (r is Ok ==> r == Ok::<usize, MmError>(s)),
        !is_fixed(f) ==> (r is Err ==> r == Err::<usize, MmError>(MmError::NoMemory)),
        !is_fixed(f) && r is Err && len > 0 ==> forall|c: int|
            !#[trigger] old(aspace).free_fit(c, len as int, ps),
        !is_fixed(f) && len > 0 ==> (r matches Ok(a) ==> a >= s || forall|c: int|
            c >= s ==> !#[trigger] old(aspace).free_fit(c, len as int, ps)),
        !is_fixed(f) ==> (r matches Ok(a) ==> {
            &&& a as int % ps.spec_bytes() as int == 0
            &&& old(aspace).spec_base() <= a
            &&& a + len <= old(aspace).spec_end()
            &&& old(aspace).vacant(a as int, a + len)
        }),
        forall|x: int|
            #[trigger] final(aspace).attrs_at(x) == (if replaces(f) && r is Ok && s <= x < s + len {
                None
            } else {
                old(aspace).attrs_at(x)
            }),
        forall|x: int|
            #[trigger] final(aspace).written(x) == (if replaces(f) && r is Ok && s <= x < s + len {
                None
            } else {
                old(aspace).written(x)
            }),
{
    if f & (MAP_FIXED | MAP_FIXED_NOREPLACE) != 0 {
        if f & MAP_FIXED_NOREPLACE == 0 {
            match aspace.unmap(s, len) {
                Ok(()) => {},
                Err(e) => {
                    return Err(e);
                },
            }
        }
        Ok(s)
    } else {
        match aspace.find_free_area(s, len, ps) {
            Some(a) => Ok(a),
            None => {
                let base = aspace.base();
                match aspace.find_free_area(base, len, ps) {
                    Some(a) => Ok(a),
                    None => Err(MmError::NoMemory),
                }
            },
        }
    }
}

/// Chooses the backend for a mapping placed at `start` and installs it with
/// the rights of `prot`, faulting it in when `populate` is set.
fn install(
    aspace: &mut AddrSpace,
    start: usize,
    map_type: u32,
    src: Option<FileSource>,
    ps: PageSize,
    offset: usize,
    len: usize,
    prot: u32,
    populate: bool,
) -> (r: Result<(), MmError>)
    requires
        old(aspace).wf(),
    ensures
        final(aspace).wf(),
        final(aspace).spec_base() == old(aspace).spec_base(),
        final(aspace).spec_end() == old(aspace).spec_end(),
        r is Err ==> *final(aspace) == *old(aspace),
        r != Err::<(), MmError>(MmError::NoMemory),
        (backend_for(map_type, src, start, ps, offset, len) matches Ok((b, mlen)) && old(
            aspace,
        ).placeable(
            start as int,
            mlen as int,
            AreaAttrs { flags: flags_of_prot(prot), backend: b, dontfork: false },
        ) && old(aspace).vacant(start as int, start + mlen)) ==> r is Ok,
        r is Ok ==> (backend_for(map_type, src, start, ps, offset, len) matches Ok((b, mlen)) && {
            let attrs = AreaAttrs { flags: flags_of_prot(prot), backend: b, dontfork: false };
            &&& mlen > 0
            &&& old(aspace).vacant(start as int, start + mlen)
            &&& forall|x: int|
                #[trigger] final(aspace).attrs_at(x) == (if start <= x < start + mlen {
                    Some(attrs)
                } else {
                    old(aspace).attrs_at(x)
                })
            &&& forall|x: int|
                #[trigger] final(aspace).written(x) == (if start <= x < start + mlen {
                    None
                } else {
                    old(aspace).written(x)
                })
        }),
{
    let (backend, mlen) = match select_backend(map_type, src, start, ps, offset, len) {
        Ok(b) => b,
        Err(e) => {
            return Err(e);
        },
    };
    let attrs = AreaAttrs { flags: mapping_flags_from_prot(prot), backend, dontfork: false };
    let ghost before = *aspace;
    match aspace.map(start, mlen, attrs) {
        Ok(()) => {},
        Err(e) => {
            return Err(e);
        },
    }
    if populate {
        proof {
            let bps = backend.spec_page_size();
            lemma_aligned_4k(start as int, bps);
            lemma_aligned_4k(mlen as int, bps);
            assert(aspace.covered(start as int, start + mlen)) by {
                assert forall|x: int| start <= x < start + mlen implies #[trigger] aspace.mapped(
                    x,
                ) by {
                    assert(aspace.attrs_at(x) == Some(attrs));
                }
            }
            assert(aspace.allowed(start as int, start + mlen, attrs.flags)) by {
                assert forall|x: int| start <= x < start + mlen implies (#[trigger] aspace.attrs_at(
                    x,
                ) matches Some(t) ==> allows(t.flags, attrs.flags)) by {
                    assert(aspace.attrs_at(x) == Some(attrs));
                }
            }
        }
        match aspace.populate_area(start, mlen, attrs.flags) {
            Ok(()) => {},
            Err(e) => {
                return Err(e);
            },
        }
    }
    Ok(())
}

/// Places and installs a checked request: decoded flags `f`, widened range
/// `[s, s + len)` for page size `ps`, and a non-negative page-aligned offset.
#[verifier::spinoff_prover]
#[verifier::rlimit(100)]
fn map_request(
    aspace: &mut AddrSpace,
    f: u32,
    ps: PageSize,
    s: usize,
    len: usize,
    prot: u32,
    fd: i32,
    offset: usize,
    file: Option<FileSource>,
) -> (r: Result<usize, MmError>)
    requires
        old(aspace).wf(),
        s as int % ps.spec_bytes() as int == 0,
        len as int % ps.spec_bytes() as int == 0,
        len > 0,
    ensures
        final(aspace).wf(),
        final(aspace).spec_base() == old(aspace).spec_base(),
        final(aspace).spec_end() == old(aspace).spec_end(),
        r matches Ok(a) ==> a <= isize::MAX && placed_outcome(
            *old(aspace),
            *final(aspace),
            a,
            f,
            ps,
            s,
            len,
            prot,
            source_of(fd, file),
            offset,
        ),
        r is Err ==> forall|x: int|
            #[trigger] final(aspace).attrs_at(x) == (if unmapped_first(*old(aspace), f, s, len, x) {
                None
            } else {
                old(aspace).attrs_at(x)
            }),
        r is Err ==> forall|x: int|
            #[trigger] final(aspace).written(x) == (if unmapped_first(*old(aspace), f, s, len, x) {
                None
            } else {
                old(aspace).written(x)
            }),
        r == Err::<usize, MmError>(MmError::NoMemory) ==> !is_fixed(f) && (len > 0 ==> forall|c: int|
            !#[trigger] old(aspace).free_fit(c, len as int, ps)),
        fixed_fits(*old(aspace), f, ps, s, len, fd, file, offset) ==> r == Ok::<usize, MmError>(s),
        free_fits(*old(aspace), f, ps, s, len, fd, file, offset) && len > 0 ==> r is Ok,
{
    let ghost before = *aspace;
    let start = match place(aspace, f, s, len, ps) {
        Ok(a) => a,
        Err(e) => {
            return Err(e);
        },
    };
    let ghost placed = *aspace;
    if fd > 0 && file.is_none() {
        return Err(MmError::BadFileDescriptor);
    }
    let src = if fd > 0 {
        file
    } else {
        None
    };
    let populate = f & MAP_POPULATE != 0;
    proof {
        lemma_backend_any_start(f & MAP_TYPE, src, s, start, ps, offset, len);
        if free_fits(before, f, ps, s, len, fd, file, offset) && len > 0 {
            lemma_backend_fits(f & MAP_TYPE, src, start, ps, offset, len);
            let (b, mlen) = backend_for(f & MAP_TYPE, src, start, ps, offset, len)->Ok_0;
            let attrs = AreaAttrs { flags: flags_of_prot(prot), backend: b, dontfork: false };
            assert forall|x: int| start <= x < start + mlen implies !#[trigger] placed.mapped(x) by {
                assert(!before.mapped(x));
                assert(placed.attrs_at(x) == before.attrs_at(x));
            }
            assert(placed.placeable(start as int, mlen as int, attrs));
        }
        if fixed_fits(before, f, ps, s, len, fd, file, offset) {
            lemma_backend_fits(f & MAP_TYPE, src, start, ps, offset, len);
            let (b, mlen) = backend_for(f & MAP_TYPE, src, start, ps, offset, len)->Ok_0;
            assert forall|x: int| start <= x < start + mlen implies !#[trigger] placed.mapped(x) by {
                if replaces(f) {
                    assert(placed.attrs_at(x) == None::<AreaAttrs>);
                } else {
                    assert(!before.mapped(x));
                }
            }
        }
    }
    match install(aspace, start, f & MAP_TYPE, src, ps, offset, len, prot, populate) {
        Ok(()) => {},
        Err(e) => {
            return Err(e);
        },
    }
    proof {
        let (b, mlen) = backend_for(f & MAP_TYPE, src, start, ps, offset, len)->Ok_0;
        let attrs = AreaAttrs { flags: flags_of_prot(prot), backend: b, dontfork: false };
        assert(aspace.mapped(start as int));
        assert(aspace.covered(start as int, start + 1));
        aspace.lemma_covered_in_window(start as int, 1);
        assert forall|x: int| #[trigger] aspace.attrs_at(x) == (if start <= x < start + mlen {
            Some(attrs)
        } else if unmapped_first(before, f, s, len, x) {
            None
        } else {
            before.attrs_at(x)
        }) by {}
        assert forall|x: int| #[trigger] aspace.written(x) == (if start <= x < start + mlen {
            None
        } else if unmapped_first(before, f, s, len, x) {
            None
        } else {
            before.written(x)
        }) by {}
        assert(!is_fixed(f) ==> before.vacant(start as int, start + mlen)) by {
            if !is_fixed(f) {
                assert forall|x: int| start <= x < start + mlen implies !#[trigger] before.mapped(
                    x,
                ) by {
                    assert(!placed.mapped(x));
                }
            }
        }
    }
    Ok(start)
}

/// Maps a new region into `aspace` and returns its start.
///
/// `file` is what the descriptor `fd` resolved to, if it did; it is read only
/// when `fd > 0`. The checks of `mmap_request` come first and change nothing.
/// A replacing fixed request unmaps its range before the backend is chosen;
/// if a later step fails, that range stays unmapped.
#[verifier::spinoff_prover]
#[verifier::rlimit(100)]
pub fn sys_mmap(
    aspace: &mut AddrSpace,
    addr: usize,
    length: usize,
    prot: u32,
    flags: u32,
    fd: i32,
    offset: isize,
    file: Option<FileSource>,
) -> (r: Result<isize, MmError>)
    requires
        old(aspace).wf(),
    ensures
        final(aspace).wf(),
        final(aspace).spec_base() == old(aspace).spec_base(),
        final(aspace).spec_end() == old(aspace).spec_end(),
        mmap_request(length, prot, flags, fd, offset) matches Err(e) ==> r == Err::<isize, MmError>(
            e,
        ),
        mmap_request(length, prot, flags, fd, offset) matches Ok(f) && geometry(
            addr,
            length,
            request_page_size(f),
        ) is None ==> r == Err::<isize, MmError>(MmError::InvalidInput),
        r matches Ok(v) ==> v >= 0 && mmap_outcome(
            *old(aspace),
            *final(aspace),
            v as usize,
            addr,
            length,
            prot,
            flags,
            fd,
            offset,
            file,
        ),
        r is Err ==> forall|x: int|
            #[trigger] final(aspace).attrs_at(x) == (if in_replaced(
                *old(aspace),
                addr,
                length,
                prot,
                flags,
                fd,
                offset,
                x,
            ) {
                None
            } else {
                old(aspace).attrs_at(x)
            }),
        r is Err ==> forall|x: int|
            #[trigger] final(aspace).written(x) == (if in_replaced(
                *old(aspace),
                addr,
                length,
                prot,
                flags,
                fd,
                offset,
                x,
            ) {
                None
            } else {
                old(aspace).written(x)
            }),
        r == Err::<isize, MmError>(MmError::NoMemory) ==> (mmap_request(
            length,
            prot,
            flags,
            fd,
            offset,
        ) matches Ok(f) && !is_fixed(f)) && no_room(
            *old(aspace),
            addr,
            length,
            prot,
            flags,
            fd,
            offset,
        ),
        free_request_fits(*old(aspace), addr, length, prot, flags, fd, offset, file) ==> r is Ok,
        fixed_request_fits(*old(aspace), addr, length, prot, flags, fd, offset, file) ==> (r matches Ok(
            v,
        ) && v == geometry(
            addr,
            length,
            request_page_size(mmap_request(length, prot, flags, fd, offset)->Ok_0),
        )->Some_0.0),
{
    let ghost before = *aspace;
    let f = match check_mmap_request(length, prot, flags, fd, offset) {
        Ok(f) => f,
        Err(e) => {
            return Err(e);
        },
    };
    let ps = page_size_of(f);
    let (s, len) = match map_geometry(addr, length, ps) {
        Some(g) => g,
        None => {
            return Err(MmError::InvalidInput);
        },
    };
    proof {
        assert(mmap_request(length, prot, flags, fd, offset) == Ok::<u32, MmError>(f));
        assert(geometry(addr, length, ps) == Some((s, len)));
        lemma_align_down(addr as int, ps);
        lemma_align_up(addr + length, ps);
        assert(len > 0);
        assert forall|x: int|
            #[trigger] in_replaced(before, addr, length, prot, flags, fd, offset, x)
                == unmapped_first(before, f, s, len, x) by {}
    }
    match map_request(aspace, f, ps, s, len, prot, fd, offset as usize, file) {
        Ok(a) => Ok(a as isize),
        Err(e) => Err(e),
    }
}

/// How much of a range `MADV_RANDOM` keeps resident.
pub const RANDOM_KEEP: usize = 0x5000;
/// How far past a range `MADV_SEQUENTIAL` reads ahead.
pub const SEQUENTIAL_PREFETCH: usize = 0xa000;

/// Read access, as asked for when pages are faulted in ahead of use.
pub open spec fn read_access() -> MappingFlags {
    MappingFlags { read: true, write: false, execute: false, user: false }
}

/// `after` is `before` with `[s, e)` unmapped and its bytes forgotten.
pub open spec fn unmaps(before: AddrSpace, after: AddrSpace, s: int, e: int) -> bool {
    &&& forall|x: int|
        #[trigger] after.attrs_at(x) == (if s <= x < e {
            None
        } else {
            before.attrs_at(x)
        })
    &&& forall|x: int|
        #[trigger] after.written(x) == (if s <= x < e {
            None
        } else {
            before.written(x)
        })
}

/// `after` is `before` with the mapped addresses of `[s, e)` given the rights
/// `flags`; every byte is as it was.
pub open spec fn reprotects(before: AddrSpace, after: AddrSpace, s: int, e: int, flags: MappingFlags) -> bool {
    &&& forall|x: int|
        #[trigger] after.attrs_at(x) == (if s <= x < e {
            match before.attrs_at(x) {
                Some(t) => Some(AreaAttrs { flags, ..t }),
                None => None,
            }
        } else {
            before.attrs_at(x)
        })
    &&& forall|x: int| #[trigger] after.written(x) == before.written(x)
}

/// `after` is `before` with the pages of `[s, e)` evicted: the same areas,
/// and the bytes of the range forgotten.
pub open spec fn clears(before: AddrSpace, after: AddrSpace, s: int, e: int) -> bool {
    &&& after.area_seq() == before.area_seq()
    &&& forall|x: int|
        #[trigger] after.written(x) == (if s <= x < e {
            None
        } else {
            before.written(x)
        })
}

/// `after` is `before` with the fork flag of the mapped addresses of `[s, e)`
/// set to `dontfork`; every byte is as it was.
pub open spec fn refork(before: AddrSpace, after: AddrSpace, s: int, e: int, dontfork: bool) -> bool {
    &&& forall|x: int|
        #[trigger] after.attrs_at(x) == (if s <= x < e {
            match before.attrs_at(x) {
                Some(t) => Some(AreaAttrs { dontfork, ..t }),
                None => None,
            }
        } else {
            before.attrs_at(x)
        })
    &&& forall|x: int| #[trigger] after.written(x) == before.written(x)
}

/// Unmaps `[addr, addr + length)`, the length rounded up to whole pages.
pub fn sys_munmap(aspace: &mut AddrSpace, addr: usize, length: usize) -> (r: Result<isize, MmError>)
    requires
        old(aspace).wf(),
    ensures
        final(aspace).wf(),
        final(aspace).spec_base() == old(aspace).spec_base(),
        final(aspace).spec_end() == old(aspace).spec_end(),
        length + 4096 > usize::MAX ==> r == Err::<isize, MmError>(MmError::InvalidInput),
        length + 4096 <= usize::MAX ==> (r is Ok <==> old(aspace).editable(
            addr as int,
            align_up_spec(length as int, 4096),
        )),
        r is Err ==> r == Err::<isize, MmError>(MmError::InvalidInput) && *final(aspace) == *old(
            aspace,
        ),
        r is Ok ==> r == Ok::<isize, MmError>(0) && unmaps(
            *old(aspace),
            *final(aspace),
            addr as int,
            addr + align_up_spec(length as int, 4096),
        ),
        length + 4096 <= usize::MAX && old(aspace).range_ok(
            addr as int,
            align_up_spec(length as int, 4096),
        ) && old(aspace).vacant(addr as int, addr + align_up_spec(length as int, 4096)) ==> r
            == Ok::<isize, MmError>(0) && forall|x: int| #[trigger]
            final(aspace).attrs_at(x) == old(aspace).attrs_at(x),
{
    if length > usize::MAX - 4096 {
        return Err(MmError::InvalidInput);
    }
    let len = memory_addr::align_up_4k(length);
    let ghost before = *aspace;
    proof {
        if aspace.range_ok(addr as int, len as int) && aspace.vacant(addr as int, addr + len) {
            aspace.lemma_vacant_editable(addr as int, len as int);
        }
    }
    let r = aspace.unmap(addr, len);
    proof {
        if r is Ok && before.vacant(addr as int, addr + len) {
            assert forall|x: int| #[trigger] aspace.attrs_at(x) == before.attrs_at(x) by {
                if addr <= x < addr + len {
                    assert(!before.mapped(x));
                }
            }
        }
    }
    match r {
        Ok(()) => Ok(0),
        Err(e) => Err(e),
    }
}

/// Whether `mprotect` accepts the protection bits `prot`: no unknown bit,
/// and not both grow-down and grow-up.
pub open spec fn protect_request_ok(prot: u32) -> bool {
    &&& prot & !PROT_KNOWN == 0
    &&& prot & (PROT_GROWSDOWN | PROT_GROWSUP) != (PROT_GROWSDOWN | PROT_GROWSUP)
}

/// Gives `[addr, addr + length)`, the length rounded up to whole pages, the
/// access rights of `prot`. Growing the change to the extent of a grows-down
/// or grows-up area is not done.
pub fn sys_mprotect(aspace: &mut AddrSpace, addr: usize, length: usize, prot: u32) -> (r: Result<
    isize,
    MmError,
>)
    requires
        old(aspace).wf(),
    ensures
        final(aspace).wf(),
        final(aspace).spec_base() == old(aspace).spec_base(),
        final(aspace).spec_end() == old(aspace).spec_end(),
        !protect_request_ok(prot) || length + 4096 > usize::MAX ==> r == Err::<isize, MmError>(
            MmError::InvalidInput,
        ),
        protect_request_ok(prot) && length + 4096 <= usize::MAX ==> (r is Ok <==> old(
            aspace,
        ).editable(addr as int, align_up_spec(length as int, 4096))),
        r is Err ==> r == Err::<isize, MmError>(MmError::InvalidInput) && *final(aspace) == *old(
            aspace,
        ),
        r is Ok ==> r == Ok::<isize, MmError>(0) && reprotects(
            *old(aspace),
            *final(aspace),
            addr as int,
            addr + align_up_spec(length as int, 4096),
            flags_of_prot(prot),
        ),
{
    if prot & !PROT_KNOWN != 0 {
        return Err(MmError::InvalidInput);
    }
    if prot & (PROT_GROWSDOWN | PROT_GROWSUP) == (PROT_GROWSDOWN | PROT_GROWSUP) {
        return Err(MmError::InvalidInput);
    }
    if length > usize::MAX - 4096 {
        return Err(MmError::InvalidInput);
    }
    let len = memory_addr::align_up_4k(length);
    match aspace.protect(addr, len, mapping_flags_from_prot(prot)) {
        Ok(()) => Ok(0),
        Err(e) => Err(e),
    }
}

/// What `sys_mremap` asks of `sys_mmap`: a private anonymous request of
/// `new_len` bytes at the hint `addr`.
proof fn lemma_remap_request(before: AddrSpace, addr: usize, new_len: usize, prot: u32)
    requires
        prot & !PROT_KNOWN == 0,
        addr % 4096 == 0,
        new_len % 4096 == 0,
    ensures
        request_page_size(MAP_PRIVATE | MAP_ANONYMOUS) == PageSize::Size4K,
        !is_fixed(MAP_PRIVATE | MAP_ANONYMOUS),
        (MAP_PRIVATE | MAP_ANONYMOUS) & MAP_TYPE == MAP_PRIVATE,
        new_len > 0 ==> mmap_request(new_len, prot, MAP_PRIVATE | MAP_ANONYMOUS, -1i32, 0isize)
            == Ok::<u32, MmError>(MAP_PRIVATE | MAP_ANONYMOUS),
        new_len > 0 && addr + new_len + 4096 <= usize::MAX ==> geometry(
            addr,
            new_len,
            PageSize::Size4K,
        ) == Some((addr, new_len)) && replaced_range(
            before,
            addr,
            new_len,
            prot,
            MAP_PRIVATE | MAP_ANONYMOUS,
            -1i32,
            0isize,
        ) is None,
{
    assert((MAP_PRIVATE | MAP_ANONYMOUS) & !MAP_KNOWN == 0) by (bit_vector);
    assert((MAP_PRIVATE | MAP_ANONYMOUS) & MAP_TYPE == MAP_PRIVATE) by (bit_vector);
    assert((MAP_PRIVATE | MAP_ANONYMOUS) & MAP_ANONYMOUS != 0) by (bit_vector);
    assert((MAP_PRIVATE | MAP_ANONYMOUS) & MAP_HUGETLB == 0) by (bit_vector);
    assert((MAP_PRIVATE | MAP_ANONYMOUS) & (MAP_FIXED | MAP_FIXED_NOREPLACE) == 0) by (bit_vector);
    assert((addr + new_len) % 4096 == 0);
}

/// What the fresh mapping of `sys_mremap` leaves: one private anonymous
/// area of `new_len` bytes at `n`, free before, with the rights of `prot` and
/// nothing written; every other address as before.
proof fn lemma_remap_mapped(
    before: AddrSpace,
    mapped: AddrSpace,
    addr: usize,
    n: usize,
    new_len: usize,
    prot: u32,
)
    requires
        prot & !PROT_KNOWN == 0,
        addr % 4096 == 0,
        new_len % 4096 == 0,
        mmap_outcome(before, mapped, n, addr, new_len, prot, MAP_PRIVATE | MAP_ANONYMOUS, -1i32, 0isize, None),
    ensures
        new_len > 0,
        n % 4096 == 0,
        before.vacant(n as int, n + new_len),
        forall|x: int|
            #[trigger] mapped.attrs_at(x) == (if n <= x < n + new_len {
                Some(
                    AreaAttrs {
                        flags: flags_of_prot(prot),
                        backend: Backend::Alloc { page_size: PageSize::Size4K },
                        dontfork: false,
                    },
                )
            } else {
                before.attrs_at(x)
            }),
        forall|x: int|
            #[trigger] mapped.written(x) == (if n <= x < n + new_len {
                None
            } else {
                before.written(x)
            }),
{
    lemma_remap_request(before, addr, new_len, prot);
    assert(new_len > 0);
    assert(addr + new_len + 4096 <= usize::MAX);
}

/// A move that is owed success: page-aligned `addr` in an area with rights
/// `t`, a new length whose end from `addr` fits in an address, room in the
/// window for it, the bytes to copy readable
/// (and the new area writable if any are copied), and the old range
/// unmappable as a whole.
pub open spec fn remap_fits(before: AddrSpace, addr: usize, old_size: usize, new_size: usize) -> bool {
    let old_len = align_up_spec(old_size as int, 4096);
    let new_len = align_up_spec(new_size as int, 4096);
    let copied = if old_len <= new_len {
        old_len
    } else {
        new_len
    };
    &&& addr % 4096 == 0
    &&& old_size + 4096 <= usize::MAX
    &&& new_size + 4096 <= usize::MAX
    &&& before.attrs_at(addr as int) matches Some(t)
    &&& copied > 0 ==> t.flags.write
    &&& new_len > 0
    &&& addr + new_len + 4096 <= usize::MAX
    &&& exists|c: int| #[trigger] before.free_fit(c, new_len, PageSize::Size4K)
    &&& forall|i: int| 0 <= i < copied ==> #[trigger] before.readable(addr + i)
    &&& before.editable(addr as int, old_len)
}

/// The second half of `sys_mremap`: copies the first bytes of the old range
/// into the fresh area at `n` (attributes `fresh`, nothing written), then
/// unmaps the old range. `before` is the address space before the fresh
/// area was mapped.
#[verifier::rlimit(100)]
fn copy_and_release(
    aspace: &mut AddrSpace,
    addr: usize,
    old_size: usize,
    n: usize,
    new_len: usize,
    Ghost(fresh): Ghost<AreaAttrs>,
    Ghost(before): Ghost<AddrSpace>,
) -> (r: Result<(), MmError>)
    requires
        old(aspace).wf(),
        before.wf(),
        old(aspace).spec_base() == before.spec_base(),
        old(aspace).spec_end() == before.spec_end(),
        addr % 4096 == 0,
        old_size + 4096 <= usize::MAX,
        n % 4096 == 0,
        new_len % 4096 == 0,
        new_len > 0,
        fresh.backend == (Backend::Alloc { page_size: PageSize::Size4K }),
        before.vacant(n as int, n + new_len),
        forall|x: int|
            #[trigger] old(aspace).attrs_at(x) == (if n <= x < n + new_len {
                Some(fresh)
            } else {
                before.attrs_at(x)
            }),
        forall|x: int|
            #[trigger] old(aspace).written(x) == (if n <= x < n + new_len {
                None
            } else {
                before.written(x)
            }),
    ensures
        final(aspace).wf(),
        final(aspace).spec_base() == old(aspace).spec_base(),
        final(aspace).spec_end() == old(aspace).spec_end(),
        ({
            let old_len = align_up_spec(old_size as int, 4096);
            let copied = if old_len <= new_len {
                old_len
            } else {
                new_len as int
            };
            &&& r is Ok ==> forall|x: int|
                addr <= x < addr + old_len ==> !#[trigger] final(aspace).mapped(x)
            &&& r is Ok && before.covered(addr as int, addr + old_len) ==> {
                &&& forall|i: int|
                    0 <= i < copied ==> #[trigger] final(aspace).byte_at(n + i) == before.byte_at(
                        addr + i,
                    )
                &&& forall|i: int|
                    copied <= i < new_len ==> #[trigger] final(aspace).byte_at(n + i) == 0
                &&& forall|i: int|
                    0 <= i < new_len ==> #[trigger] final(aspace).attrs_at(n + i) == Some(fresh)
            }
            &&& (forall|i: int| 0 <= i < copied ==> #[trigger] before.readable(addr + i)) && (
            copied > 0 ==> fresh.flags.write) && before.editable(addr as int, old_len) ==> r is Ok
        }),
{
    let old_len = memory_addr::align_up_4k(old_size);
    let copy_len = if old_len <= new_len {
        old_len
    } else {
        new_len
    };
    let ghost mapped = *aspace;
    let ghost fits = (forall|i: int| 0 <= i < copy_len ==> #[trigger] before.readable(addr + i)) && (
    copy_len > 0 ==> fresh.flags.write) && before.editable(addr as int, old_len as int);
    proof {
        if fits {
            assert(mapped.mapped(n as int));
            assert(mapped.covered(n as int, n + 1));
            mapped.lemma_covered_in_window(n as int, 1);
            assert(n + new_len <= mapped.spec_end()) by {
                assert(mapped.mapped(n + new_len - 1));
                assert(mapped.covered(n + new_len - 1, n + new_len));
                mapped.lemma_covered_in_window(n + new_len - 1, 1);
            }
            assert forall|i: int| 0 <= i < copy_len implies #[trigger] mapped.readable(addr + i) by {
                assert(before.readable(addr + i));
                assert(before.mapped(addr + i));
                assert(!(n <= addr + i < n + new_len));
            }
            assert forall|i: int| 0 <= i < copy_len implies #[trigger] mapped.writable(n + i) by {
                assert(mapped.attrs_at(n + i) == Some(fresh));
            }
        }
    }
    if addr > usize::MAX - copy_len || n > usize::MAX - copy_len {
        return Err(MmError::BadAddress);
    }
    let data = match aspace.read_bytes(addr, copy_len) {
        Ok(d) => d,
        Err(e) => {
            return Err(e);
        },
    };
    match aspace.write_bytes(n, &data) {
        Ok(()) => {},
        Err(e) => {
            return Err(e);
        },
    }
    let ghost copied = *aspace;
    proof {
        if fits && old_len > 0 {
            assert(copied.cut_ok(addr as int)) by {
                assert(copied.attrs_at(addr as int) == mapped.attrs_at(addr as int));
            }
            assert(copied.cut_ok(addr + old_len)) by {
                let c = addr + old_len;
                assert(c % 4096 == 0);
                assert(copied.attrs_at(c) == mapped.attrs_at(c));
                if n <= c < n + new_len {
                    assert(mapped.attrs_at(c) == Some(fresh));
                } else {
                    assert(mapped.attrs_at(c) == before.attrs_at(c));
                }
            }
        }
    }
    match sys_munmap(aspace, addr, old_size) {
        Ok(_) => {},
        Err(e) => {
            return Err(e);
        },
    }
    proof {
        if before.covered(addr as int, addr + old_len) {
            assert forall|i: int| 0 <= i < new_len implies !(addr <= #[trigger] (n + i) < addr
                + old_len) by {
                if addr <= n + i < addr + old_len {
                    assert(before.mapped(n + i));
                }
            }
            assert forall|i: int| 0 <= i < copy_len implies #[trigger] aspace.byte_at(n + i)
                == before.byte_at(addr + i) by {
                assert(!(addr <= n + i < addr + old_len));
                assert(before.mapped(addr + i));
                assert(!(n <= addr + i < n + new_len));
                assert(mapped.written(addr + i) == before.written(addr + i));
            }
            assert forall|i: int| copy_len <= i < new_len implies #[trigger] aspace.byte_at(n + i)
                == 0 by {
                assert(!(addr <= n + i < addr + old_len));
            }
            assert forall|i: int| 0 <= i < new_len implies #[trigger] aspace.attrs_at(n + i)
                == Some(fresh) by {
                assert(!(addr <= n + i < addr + old_len));
                assert(copied.attrs_at(n + i) == mapped.attrs_at(n + i));
            }
        }
    }
    Ok(())
}

/// Moves the area at `addr` to a fresh private anonymous mapping of
/// `new_size` bytes with the same access rights, copying the first
/// `min(old_size, new_size)` bytes, and then unmaps `old_size` bytes at
/// `addr` (sizes rounded up to whole pages). The old backend is not kept:
/// a shared or file mapping becomes anonymous. `flags` is not looked at.
#[verifier::rlimit(100)]
pub fn sys_mremap(
    aspace: &mut AddrSpace,
    addr: usize,
    old_size: usize,
    new_size: usize,
    flags: u32,
) -> (r: Result<isize, MmError>)
    requires
        old(aspace).wf(),
    ensures
        final(aspace).wf(),
        final(aspace).spec_base() == old(aspace).spec_base(),
        final(aspace).spec_end() == old(aspace).spec_end(),
        addr % 4096 != 0 || old_size + 4096 > usize::MAX || new_size + 4096 > usize::MAX ==> r
            == Err::<isize, MmError>(MmError::InvalidInput) && *final(aspace) == *old(aspace),
        remap_fits(*old(aspace), addr, old_size, new_size) ==> r is Ok,
        addr % 4096 == 0 && old_size + 4096 <= usize::MAX && new_size + 4096 <= usize::MAX && !old(
            aspace,
        ).mapped(addr as int) ==> r == Err::<isize, MmError>(
            MmError::NoMemory,
        ) && *final(aspace) == *old(aspace),
        r matches Ok(n) ==> {
            let old_len = align_up_spec(old_size as int, 4096);
            let new_len = align_up_spec(new_size as int, 4096);
            let copied = if old_len <= new_len {
                old_len
            } else {
                new_len
            };
            &&& n >= 0
            &&& n % 4096 == 0
            &&& forall|x: int|
                addr <= x < addr + old_len ==> !#[trigger] final(aspace).mapped(x)
            &&& old(aspace).covered(addr as int, addr + old_len) ==> {
                &&& forall|i: int|
                    0 <= i < copied ==> #[trigger] final(aspace).byte_at(n + i) == old(
                        aspace,
                    ).byte_at(addr + i)
                &&& forall|i: int|
                    copied <= i < new_len ==> #[trigger] final(aspace).byte_at(n + i) == 0
                &&& forall|i: int|
                    0 <= i < new_len ==> #[trigger] final(aspace).attrs_at(n + i) == Some(
                        AreaAttrs {
                            flags: MappingFlags {
                                user: true,
                                ..old(aspace).attrs_at(addr as int)->Some_0.flags
                            },
                            backend: Backend::Alloc { page_size: PageSize::Size4K },
                            dontfork: false,
                        },
                    )
            }
        },
{
    if addr % PAGE_SIZE_4K != 0 {
        return Err(MmError::InvalidInput);
    }
    if old_size > usize::MAX - 4096 || new_size > usize::MAX - 4096 {
        return Err(MmError::InvalidInput);
    }
    let old_len = memory_addr::align_up_4k(old_size);
    let new_len = memory_addr::align_up_4k(new_size);
    let area = match aspace.find_area(addr) {
        Some(a) => a,
        None => {
            return Err(MmError::NoMemory);
        },
    };
    let prot = prot_from_flags(area.flags());
    let ghost before = *aspace;
    proof {
        lemma_remap_request(before, addr, new_len, prot);
    }
    let n = match sys_mmap(aspace, addr, new_len, prot, MAP_PRIVATE | MAP_ANONYMOUS, -1, 0, None) {
        Ok(v) => v as usize,
        Err(e) => {
            return Err(e);
        },
    };
    let ghost mapped = *aspace;
    proof {
        lemma_remap_mapped(before, mapped, addr, n, new_len, prot);
    }
    let ghost fresh = AreaAttrs {
        flags: flags_of_prot(prot),
        backend: Backend::Alloc { page_size: PageSize::Size4K },
        dontfork: false,
    };
    proof {
        if remap_fits(before, addr, old_size, new_size) {
            assert(area.attrs == before.attrs_at(addr as int)->Some_0);
        }
    }
    match copy_and_release(aspace, addr, old_size, n, new_len, Ghost(fresh), Ghost(before)) {
        Ok(()) => {},
        Err(e) => {
            return Err(e);
        },
    }
    Ok(n as isize)
}

/// Acts on the advice `advice` for `[addr, addr + length)`, the length
/// rounded up to whole pages. The address must be page-aligned, the length
/// non-zero, and the whole range mapped. Advice never changes an area's
/// backend or rights; `MADV_REMOVE` unmaps, and only standard-page areas.
#[verifier::rlimit(100)]
pub fn sys_madvise(aspace: &mut AddrSpace, addr: usize, length: usize, advice: u32) -> (r: Result<
    isize,
    MmError,
>)
    requires
        old(aspace).wf(),
    ensures
        final(aspace).wf(),
        final(aspace).spec_base() == old(aspace).spec_base(),
        final(aspace).spec_end() == old(aspace).spec_end(),
        r is Err ==> *final(aspace) == *old(aspace),
        r is Ok ==> r == Ok::<isize, MmError>(0),
        addr % 4096 != 0 || length == 0 || length + 4096 > usize::MAX || addr + align_up_spec(
            length as int,
            4096,
        ) > usize::MAX ==> r == Err::<isize, MmError>(MmError::InvalidInput),
        ({
            let len = align_up_spec(length as int, 4096);
            addr % 4096 == 0 && length != 0 && length + 4096 <= usize::MAX && addr + len
                <= usize::MAX ==> {
                &&& !old(aspace).covered(addr as int, addr + len) ==> r == Err::<isize, MmError>(
                    MmError::InvalidInput,
                )
                &&& old(aspace).covered(addr as int, addr + len) ==> {
                    &&& advice == MADV_NORMAL ==> r is Ok && *final(aspace) == *old(aspace)
                    &&& advice == MADV_RANDOM && len <= RANDOM_KEEP ==> r is Ok && *final(aspace)
                        == *old(aspace)
                    &&& advice == MADV_RANDOM && len > RANDOM_KEEP ==> r is Ok && clears(
                        *old(aspace),
                        *final(aspace),
                        addr + RANDOM_KEEP,
                        addr + len,
                    )
                    &&& advice == MADV_SEQUENTIAL || advice == MADV_WILLNEED ==> *final(aspace)
                        == *old(aspace) && (r is Ok <==> old(aspace).allowed(
                        addr as int,
                        addr + len,
                        read_access(),
                    )) && (r is Err ==> r == Err::<isize, MmError>(MmError::BadAddress))
                    &&& advice == MADV_DONTNEED ==> r is Ok && clears(
                        *old(aspace),
                        *final(aspace),
                        addr as int,
                        addr + len,
                    )
                    &&& advice == MADV_REMOVE ==> (old(aspace).attrs_at(addr as int) matches Some(
                        t,
                    ) && t.backend.spec_page_size() != PageSize::Size4K ==> r == Err::<
                        isize,
                        MmError,
                    >(MmError::OperationNotSupported))
                    &&& advice == MADV_REMOVE ==> (old(aspace).attrs_at(addr as int) matches Some(
                        t,
                    ) && t.backend.spec_page_size() == PageSize::Size4K ==> (r is Ok <==> old(
                        aspace,
                    ).editable(addr as int, len)) && (r is Ok ==> unmaps(
                        *old(aspace),
                        *final(aspace),
                        addr as int,
                        addr + len,
                    )) && (r is Err ==> r == Err::<isize, MmError>(MmError::InvalidInput)))
                    &&& advice == MADV_DONTFORK || advice == MADV_DOFORK ==> (r is Ok <==> old(
                        aspace,
                    ).editable(addr as int, len)) && (r is Ok ==> refork(
                        *old(aspace),
                        *final(aspace),
                        addr as int,
                        addr + len,
                        advice == MADV_DONTFORK,
                    )) && (r is Err ==> r == Err::<isize, MmError>(MmError::InvalidInput))
                    &&& advice != MADV_NORMAL && advice != MADV_RANDOM && advice
                        != MADV_SEQUENTIAL && advice != MADV_WILLNEED && advice != MADV_DONTNEED
                        && advice != MADV_REMOVE && advice != MADV_DONTFORK && advice
                        != MADV_DOFORK ==> r == Err::<isize, MmError>(MmError::InvalidInput)
                }
            }
        }),
{
    if addr % PAGE_SIZE_4K != 0 || length == 0 {
        return Err(MmError::InvalidInput);
    }
    if length > usize::MAX - 4096 {
        return Err(MmError::InvalidInput);
    }
    let len = memory_addr::align_up_4k(length);
    if addr > usize::MAX - len {
        return Err(MmError::InvalidInput);
    }
    if !aspace.contains_range(addr, len) {
        return Err(MmError::InvalidInput);
    }
    proof {
        aspace.lemma_covered_in_window(addr as int, len as int);
    }
    let access = MappingFlags { read: true, write: false, execute: false, user: false };
    if advice == MADV_NORMAL {
        Ok(0)
    } else if advice == MADV_RANDOM {
        if len > RANDOM_KEEP {
            match aspace.clear_area(addr + RANDOM_KEEP, len - RANDOM_KEEP) {
                Ok(()) => Ok(0),
                Err(e) => Err(e),
            }
        } else {
            Ok(0)
        }
    } else if advice == MADV_SEQUENTIAL {
        match aspace.populate_area(addr, len, access) {
            Ok(()) => {},
            Err(e) => {
                return Err(e);
            },
        }
        let cur_end = addr + len;
        if cur_end <= usize::MAX - SEQUENTIAL_PREFETCH && aspace.contains_range(
            cur_end,
            SEQUENTIAL_PREFETCH,
        ) {
            let _ = aspace.populate_area(cur_end, SEQUENTIAL_PREFETCH, access);
        }
        Ok(0)
    } else if advice == MADV_WILLNEED {
        match aspace.populate_area(addr, len, access) {
            Ok(()) => Ok(0),
            Err(e) => Err(e),
        }
    } else if advice == MADV_DONTNEED {
        match aspace.clear_area(addr, len) {
            Ok(()) => Ok(0),
            Err(e) => Err(e),
        }
    } else if advice == MADV_REMOVE {
        match aspace.find_area(addr) {
            Some(area) => {
                if area.backend().page_size() == PageSize::Size4K {
                    match aspace.unmap(addr, len) {
                        Ok(()) => Ok(0),
                        Err(e) => Err(e),
                    }
                } else {
                    Err(MmError::OperationNotSupported)
                }
            },
            None => Ok(0),
        }
    } else if advice == MADV_DONTFORK {
        match aspace.set_dontfork(addr, len) {
            Ok(()) => Ok(0),
            Err(e) => Err(e),
        }
    } else if advice == MADV_DOFORK {
        match aspace.set_dofork(addr, len) {
            Ok(()) => Ok(0),
            Err(e) => Err(e),
        }
    } else {
        Err(MmError::InvalidInput)
    }
}

/// Flushes a mapped range to its backing store: write-back is left to the
/// page cache, so this always succeeds and does nothing.
pub fn sys_msync(addr: usize, length: usize, flags: u32) -> (r: Result<isize, MmError>)
    ensures
        r == Ok::<isize, MmError>(0),
{
    Ok(0)
}

/// Accepted, with no locking effect: always succeeds.
pub fn sys_mlock(addr: usize, length: usize) -> (r: Result<isize, MmError>)
    ensures
        r == Ok::<isize, MmError>(0),
{
    sys_mlock2(addr, length, 0)
}

/// Accepted, with no locking effect: always succeeds.
pub fn sys_mlock2(addr: usize, length: usize, flags: u32) -> (r: Result<isize, MmError>)
    ensures
        r == Ok::<isize, MmError>(0),
{
    Ok(0)
}

} // verus!
