use starry_mmap::aspace::{AddrSpace, Backend, Store};
use starry_mmap::error::MmError;
use starry_mmap::flags::{
    PageSize, MADV_DOFORK, MADV_DONTFORK, MADV_DONTNEED, MADV_NORMAL, MADV_RANDOM, MADV_REMOVE,
    MADV_SEQUENTIAL, MADV_WILLNEED, MAP_ANONYMOUS, MAP_DENYWRITE, MAP_FIXED, MAP_FIXED_NOREPLACE,
    MAP_HUGETLB, MAP_HUGE_1GB, MAP_KNOWN, MAP_NORESERVE, MAP_POPULATE, MAP_PRIVATE, MAP_SHARED,
    MAP_SHARED_VALIDATE, MAP_STACK, MAP_TYPE, PROT_EXEC, PROT_GROWSDOWN, PROT_GROWSUP, PROT_KNOWN,
    PROT_READ,
    PROT_WRITE,
};
use starry_mmap::mmap::{
    check_mmap_request, map_geometry, sys_madvise, sys_mlock, sys_mlock2, sys_mmap,
    sys_mprotect, sys_mremap, sys_msync, sys_munmap, DeviceMmap, FileSource,
};

use linux_raw_sys::general as g;

const PAGE: usize = 4096;
const RW: u32 = PROT_READ | PROT_WRITE;

fn user_space() -> AddrSpace {
    AddrSpace::new(0x1000, 0x7fff_ffff_f000)
}

fn anon(aspace: &mut AddrSpace, hint: usize, size: usize, prot: u32) -> usize {
    sys_mmap(aspace, hint, size, prot, MAP_ANONYMOUS | MAP_PRIVATE, -1, 0, None).unwrap() as usize
}

#[test]
fn flag_values_match_linux() {
    assert_eq!(PROT_READ, g::PROT_READ);
    assert_eq!(PROT_WRITE, g::PROT_WRITE);
    assert_eq!(PROT_EXEC, g::PROT_EXEC);
    assert_eq!(PROT_GROWSDOWN, g::PROT_GROWSDOWN);
    assert_eq!(PROT_GROWSUP, g::PROT_GROWSUP);
    assert_eq!(MAP_SHARED, g::MAP_SHARED);
    assert_eq!(MAP_PRIVATE, g::MAP_PRIVATE);
    assert_eq!(MAP_SHARED_VALIDATE, g::MAP_SHARED_VALIDATE);
    assert_eq!(MAP_TYPE, g::MAP_TYPE);
    assert_eq!(MAP_FIXED, g::MAP_FIXED);
    assert_eq!(MAP_FIXED_NOREPLACE, g::MAP_FIXED_NOREPLACE);
    assert_eq!(MAP_ANONYMOUS, g::MAP_ANONYMOUS);
    assert_eq!(MAP_POPULATE, g::MAP_POPULATE);
    assert_eq!(MAP_NORESERVE, g::MAP_NORESERVE);
    assert_eq!(MAP_STACK, g::MAP_STACK);
    assert_eq!(MAP_HUGETLB, g::MAP_HUGETLB);
    assert_eq!(MAP_HUGE_1GB, g::MAP_HUGE_1GB);
    assert_eq!(MAP_DENYWRITE, g::MAP_DENYWRITE);
    assert_eq!(MADV_NORMAL, g::MADV_NORMAL);
    assert_eq!(MADV_RANDOM, g::MADV_RANDOM);
    assert_eq!(MADV_SEQUENTIAL, g::MADV_SEQUENTIAL);
    assert_eq!(MADV_WILLNEED, g::MADV_WILLNEED);
    assert_eq!(MADV_DONTNEED, g::MADV_DONTNEED);
    assert_eq!(MADV_REMOVE, g::MADV_REMOVE);
    assert_eq!(MADV_DONTFORK, g::MADV_DONTFORK);
    assert_eq!(MADV_DOFORK, g::MADV_DOFORK);
    assert_eq!(
        MAP_KNOWN,
        MAP_SHARED | MAP_PRIVATE | MAP_SHARED_VALIDATE | MAP_TYPE | MAP_FIXED | MAP_FIXED_NOREPLACE
            | MAP_ANONYMOUS | MAP_POPULATE | MAP_NORESERVE | MAP_STACK | MAP_HUGETLB | MAP_HUGE_1GB
            | MAP_DENYWRITE
    );
    assert_eq!(PROT_KNOWN, PROT_READ | PROT_WRITE | PROT_EXEC | PROT_GROWSDOWN | PROT_GROWSUP);
}

#[test]
fn round_trip_sixteen_kib() {
    let mut aspace = user_space();
    let size = 4 * PAGE;
    let addr = anon(&mut aspace, 0, size, RW);
    for i in 0..size {
        aspace.write_byte(addr + i, (i % 251) as u8).unwrap();
    }
    for i in 0..size {
        assert_eq!(aspace.read_byte(addr + i), Ok((i % 251) as u8));
    }
    let bytes = aspace.read_bytes(addr, size).unwrap();
    assert_eq!(bytes.len(), size);
    assert_eq!(bytes[3 * PAGE + 7], ((3 * PAGE + 7) % 251) as u8);
}

#[test]
fn unmapped_range_cannot_be_touched_and_remap_reads_zero() {
    let mut aspace = user_space();
    let addr = anon(&mut aspace, 0, 2 * PAGE, RW);
    aspace.write_byte(addr + 10, 0x5a).unwrap();
    assert_eq!(sys_munmap(&mut aspace, addr, 2 * PAGE), Ok(0));
    assert_eq!(aspace.read_byte(addr + 10), Err(MmError::BadAddress));
    assert_eq!(aspace.write_byte(addr + 10, 1), Err(MmError::BadAddress));
    let again = sys_mmap(&mut aspace, addr, 2 * PAGE, RW, MAP_ANONYMOUS | MAP_SHARED | MAP_FIXED, -1, 0, None).unwrap();
    assert_eq!(again as usize, addr);
    assert_eq!(aspace.read_byte(addr + 10), Ok(0));
}

#[test]
fn zero_length_is_invalid_for_every_flag_combination() {
    let mut aspace = user_space();
    let combos = [
        MAP_ANONYMOUS | MAP_PRIVATE,
        MAP_ANONYMOUS | MAP_SHARED,
        MAP_SHARED_VALIDATE | 0x40,
        0xFFFF,
        MAP_PRIVATE | MAP_FIXED | MAP_HUGETLB,
        0,
    ];
    for flags in combos {
        assert_eq!(sys_mmap(&mut aspace, 0, 0, RW, flags, -1, 0, None), Err(MmError::InvalidInput));
        assert_eq!(sys_mmap(&mut aspace, 0, 0, RW, flags, 3, 0, None), Err(MmError::InvalidInput));
    }
}

#[test]
fn anonymous_flag_must_match_descriptor() {
    let mut aspace = user_space();
    assert_eq!(sys_mmap(&mut aspace, 0, PAGE, RW, MAP_PRIVATE, -1, 0, None), Err(MmError::InvalidInput));
    assert_eq!(sys_mmap(&mut aspace, 0, PAGE, RW, MAP_PRIVATE, 0, 0, None), Err(MmError::InvalidInput));
    let file = FileSource::Cached { cache: 1, open_flags: 0 };
    assert_eq!(sys_mmap(&mut aspace, 0, PAGE, RW, MAP_ANONYMOUS | MAP_PRIVATE, 3, 0, Some(file)), Err(MmError::InvalidInput));
}

#[test]
fn shared_validate_refusal_comes_before_protection_check() {
    let mut aspace = user_space();
    assert_eq!(sys_mmap(&mut aspace, 0, PAGE, 0xFFFF, 0x8000_0003, -1, 0, None), Err(MmError::OperationNotSupported));
    assert_eq!(check_mmap_request(PAGE, 0xFFFF, MAP_PRIVATE, 3, 0x800), Err(MmError::InvalidInput));
    assert_eq!(check_mmap_request(PAGE, 0xFFFF, MAP_ANONYMOUS | MAP_PRIVATE, -1, 0), Err(MmError::InvalidInput));
}

#[test]
fn mremap_gives_a_private_anonymous_area_with_the_old_rights() {
    let mut aspace = user_space();
    let addr = sys_mmap(&mut aspace, 0x10_0000, PAGE, PROT_READ | PROT_WRITE | PROT_EXEC, MAP_ANONYMOUS | MAP_SHARED, -1, 0, None).unwrap() as usize;
    let n = sys_mremap(&mut aspace, addr, PAGE, 2 * PAGE, 0).unwrap() as usize;
    let area = aspace.find_area(n + PAGE).unwrap();
    assert_eq!(area.backend(), Backend::Alloc { page_size: PageSize::Size4K });
    let f = area.flags();
    assert!(f.read && f.write && f.execute && f.user);
}

#[test]
fn request_checks_each_error() {
    assert_eq!(check_mmap_request(PAGE, RW, MAP_SHARED_VALIDATE | 0x40, -1, 0), Err(MmError::OperationNotSupported));
    assert_eq!(check_mmap_request(PAGE, RW, MAP_SHARED | 0x40 | MAP_ANONYMOUS, -1, 0), Ok(MAP_SHARED | MAP_ANONYMOUS));
    assert_eq!(check_mmap_request(PAGE, RW, MAP_ANONYMOUS, -1, 0), Err(MmError::InvalidInput));
    assert_eq!(check_mmap_request(PAGE, RW, MAP_ANONYMOUS | MAP_PRIVATE, -1, 4096), Err(MmError::InvalidInput));
    assert_eq!(check_mmap_request(PAGE, RW, MAP_PRIVATE, 3, -4096), Err(MmError::InvalidInput));
    assert_eq!(check_mmap_request(PAGE, RW, MAP_PRIVATE, 3, 0x800), Err(MmError::InvalidInput));
    assert_eq!(check_mmap_request(PAGE, RW, MAP_PRIVATE, 3, 0x2000), Ok(MAP_PRIVATE));
    assert_eq!(check_mmap_request(PAGE, 0x10, MAP_PRIVATE, 3, 0), Err(MmError::InvalidInput));
}

#[test]
fn geometry_widens_to_page_boundaries() {
    assert_eq!(map_geometry(0x1234, 0x10, PageSize::Size4K), Some((0x1000, 0x1000)));
    assert_eq!(map_geometry(0x1000, 0x1001, PageSize::Size4K), Some((0x1000, 0x2000)));
    assert_eq!(map_geometry(0x20_1000, 0x1000, PageSize::Size2M), Some((0x20_0000, 0x20_0000)));
    assert_eq!(map_geometry(usize::MAX - 0x10, 0x8, PageSize::Size4K), None);
}

#[test]
fn huge_page_requests_are_aligned() {
    let mut aspace = user_space();
    let a = sys_mmap(&mut aspace, 0x1234_5678, 0x1000, RW, MAP_ANONYMOUS | MAP_PRIVATE | MAP_HUGETLB, -1, 0, None).unwrap() as usize;
    assert_eq!(a % 0x20_0000, 0);
    assert_eq!(aspace.find_area(a).unwrap().size, 0x20_0000);
    let g = sys_mmap(&mut aspace, 0x1234_5678, 0x1000, RW, MAP_ANONYMOUS | MAP_PRIVATE | MAP_HUGETLB | MAP_HUGE_1GB, -1, 0, None).unwrap() as usize;
    assert_eq!(g % 0x4000_0000, 0);
    assert_eq!(aspace.find_area(g).unwrap().backend(), Backend::Alloc { page_size: PageSize::Size1G });
}

#[test]
fn placement_retries_from_the_base() {
    let mut aspace = AddrSpace::new(0x1000, 0x5000);
    let a = anon(&mut aspace, 0x4000, 0x2000, RW);
    assert_eq!(a, 0x1000);
    assert_eq!(sys_mmap(&mut aspace, 0, 0x3000, RW, MAP_ANONYMOUS | MAP_PRIVATE, -1, 0, None), Err(MmError::NoMemory));
}

#[test]
fn fixed_noreplace_refuses_overlap() {
    let mut aspace = user_space();
    let a = anon(&mut aspace, 0x10_0000, 2 * PAGE, RW);
    let r = sys_mmap(&mut aspace, a + PAGE, PAGE, RW, MAP_ANONYMOUS | MAP_PRIVATE | MAP_FIXED_NOREPLACE, -1, 0, None);
    assert_eq!(r, Err(MmError::AlreadyExists));
    let b = sys_mmap(&mut aspace, a + 2 * PAGE, PAGE, RW, MAP_ANONYMOUS | MAP_PRIVATE | MAP_FIXED_NOREPLACE, -1, 0, None);
    assert_eq!(b, Ok((a + 2 * PAGE) as isize));
}

#[test]
fn file_backends_are_chosen_by_source() {
    let mut aspace = user_space();
    let cached = FileSource::Cached { cache: 7, open_flags: 2 };
    let a = sys_mmap(&mut aspace, 0, PAGE, RW, MAP_SHARED, 3, 0x2000, Some(cached)).unwrap() as usize;
    assert_eq!(aspace.find_area(a).unwrap().backend(), Backend::SharedFile { cache: 7, open_flags: 2, offset: 0x2000, anchor: a });
    let b = sys_mmap(&mut aspace, 0, PAGE, RW, MAP_PRIVATE, 3, 0x2000, Some(cached)).unwrap() as usize;
    assert_eq!(aspace.find_area(b).unwrap().backend(), Backend::CopyOnWrite { page_size: PageSize::Size4K, store: Store::Cached { cache: 7 }, offset: 0x2000, anchor: b });
    let ro = FileSource::Direct { device: 9, open_flags: 0, mmap: DeviceMmap::ReadOnly };
    let c = sys_mmap(&mut aspace, 0, PAGE, PROT_READ, MAP_SHARED, 4, 0, Some(ro)).unwrap() as usize;
    assert_eq!(aspace.find_area(c).unwrap().backend(), Backend::CopyOnWrite { page_size: PageSize::Size4K, store: Store::Device { device: 9 }, offset: 0, anchor: c });
    let dc = FileSource::Direct { device: 9, open_flags: 1, mmap: DeviceMmap::Cache { cache: 11 } };
    let d = sys_mmap(&mut aspace, 0, PAGE, RW, MAP_SHARED, 4, 0, Some(dc)).unwrap() as usize;
    assert_eq!(aspace.find_area(d).unwrap().backend(), Backend::SharedFile { cache: 11, open_flags: 1, offset: 0, anchor: d });
    let s = sys_mmap(&mut aspace, 0, 3 * PAGE, RW, MAP_ANONYMOUS | MAP_SHARED, -1, 0, None).unwrap() as usize;
    assert_eq!(aspace.find_area(s).unwrap().backend(), Backend::SharedPages { pool_size: 3 * PAGE, anchor: s });
}

#[test]
fn device_errors() {
    let mut aspace = user_space();
    let none = FileSource::Direct { device: 9, open_flags: 0, mmap: DeviceMmap::Unmappable };
    assert_eq!(sys_mmap(&mut aspace, 0, PAGE, RW, MAP_SHARED, 4, 0, Some(none)), Err(MmError::NoSuchDevice));
    let phys = FileSource::Direct { device: 9, open_flags: 0, mmap: DeviceMmap::Physical { start: 0xfe00_0000, end: 0xfe00_3000 } };
    assert_eq!(sys_mmap(&mut aspace, 0, PAGE, RW, MAP_SHARED, 4, 0x3000, Some(phys)), Err(MmError::InvalidInput));
    assert_eq!(sys_mmap(&mut aspace, 0, PAGE, RW, MAP_SHARED, 4, 0, None), Err(MmError::BadFileDescriptor));
}

#[test]
fn physical_device_is_clamped_and_linear() {
    let mut aspace = user_space();
    let phys = FileSource::Direct { device: 9, open_flags: 0, mmap: DeviceMmap::Physical { start: 0xfe00_0000, end: 0xfe00_3000 } };
    let a = sys_mmap(&mut aspace, 0, 4 * PAGE, RW, MAP_SHARED, 4, 0x1000, Some(phys)).unwrap() as usize;
    let area = aspace.find_area(a).unwrap();
    assert_eq!(area.size, 2 * PAGE);
    assert_eq!(area.backend(), Backend::Linear { bias: a as i128 - 0xfe00_1000 });
    assert!(aspace.find_area(a + 2 * PAGE).is_none());
}

#[test]
fn mprotect_read_only_then_back_keeps_content() {
    let mut aspace = user_space();
    let addr = anon(&mut aspace, 0, 2 * PAGE, RW);
    aspace.write_byte(addr + PAGE, 0x42).unwrap();
    assert_eq!(sys_mprotect(&mut aspace, addr, 2 * PAGE, PROT_READ), Ok(0));
    assert_eq!(aspace.write_byte(addr + PAGE, 1), Err(MmError::BadAddress));
    assert_eq!(aspace.read_byte(addr + PAGE), Ok(0x42));
    assert_eq!(sys_mprotect(&mut aspace, addr, 2 * PAGE, RW), Ok(0));
    assert_eq!(aspace.read_byte(addr + PAGE), Ok(0x42));
    assert_eq!(aspace.write_byte(addr + PAGE, 2), Ok(()));
}

#[test]
fn mprotect_rejects_bad_protection() {
    let mut aspace = user_space();
    let addr = anon(&mut aspace, 0, PAGE, RW);
    assert_eq!(sys_mprotect(&mut aspace, addr, PAGE, PROT_READ | PROT_GROWSDOWN | PROT_GROWSUP), Err(MmError::InvalidInput));
    assert_eq!(sys_mprotect(&mut aspace, addr, PAGE, 0x10), Err(MmError::InvalidInput));
    assert_eq!(sys_mprotect(&mut aspace, addr, PAGE, PROT_READ | PROT_GROWSDOWN), Ok(0));
    assert_eq!(sys_mprotect(&mut aspace, addr + 1, PAGE, PROT_READ), Err(MmError::InvalidInput));
}

#[test]
fn mprotect_splits_areas() {
    let mut aspace = user_space();
    let addr = anon(&mut aspace, 0, 3 * PAGE, RW);
    assert_eq!(sys_mprotect(&mut aspace, addr + PAGE, PAGE, 0), Ok(0));
    assert_eq!(aspace.read_byte(addr), Ok(0));
    assert_eq!(aspace.read_byte(addr + PAGE), Err(MmError::BadAddress));
    assert_eq!(aspace.read_byte(addr + 2 * PAGE), Ok(0));
    assert_eq!(aspace.find_area(addr + PAGE).unwrap().start, addr + PAGE);
}

#[test]
fn munmap_rounds_and_splits() {
    let mut aspace = user_space();
    let addr = anon(&mut aspace, 0, 3 * PAGE, RW);
    assert_eq!(sys_munmap(&mut aspace, addr + PAGE, 1), Ok(0));
    assert_eq!(aspace.read_byte(addr), Ok(0));
    assert_eq!(aspace.read_byte(addr + PAGE), Err(MmError::BadAddress));
    assert_eq!(aspace.read_byte(addr + 2 * PAGE), Ok(0));
    assert_eq!(sys_munmap(&mut aspace, 0x7000_0000, PAGE), Ok(0));
    assert_eq!(sys_munmap(&mut aspace, addr + 1, PAGE), Err(MmError::InvalidInput));
}

#[test]
fn huge_area_cannot_be_cut_inside_a_page() {
    let mut aspace = user_space();
    let a = sys_mmap(&mut aspace, 0, 0x20_0000, RW, MAP_ANONYMOUS | MAP_PRIVATE | MAP_HUGETLB, -1, 0, None).unwrap() as usize;
    assert_eq!(sys_munmap(&mut aspace, a, PAGE), Err(MmError::InvalidInput));
    assert_eq!(aspace.read_byte(a), Ok(0));
}

#[test]
fn empty_or_unmapped_ranges_unmap_as_no_ops() {
    let mut aspace = user_space();
    let a = sys_mmap(&mut aspace, 0, 0x20_0000, RW, MAP_ANONYMOUS | MAP_PRIVATE | MAP_HUGETLB, -1, 0, None).unwrap() as usize;
    assert_eq!(sys_munmap(&mut aspace, a + PAGE, 0), Ok(0));
    assert_eq!(aspace.find_area(a).unwrap().size, 0x20_0000);
    assert_eq!(sys_munmap(&mut aspace, a + 0x20_0000, 3 * PAGE), Ok(0));
    assert_eq!(aspace.find_area(a).unwrap().size, 0x20_0000);
}

#[test]
fn lengths_at_the_top_of_the_address_range_are_refused() {
    let mut aspace = user_space();
    let addr = anon(&mut aspace, 0, PAGE, RW);
    assert_eq!(sys_munmap(&mut aspace, addr, usize::MAX - 4095), Err(MmError::InvalidInput));
    assert_eq!(sys_mprotect(&mut aspace, addr, usize::MAX - 4095, PROT_READ), Err(MmError::InvalidInput));
    assert_eq!(sys_madvise(&mut aspace, addr, usize::MAX - 4095, MADV_NORMAL), Err(MmError::InvalidInput));
    assert_eq!(sys_mremap(&mut aspace, addr, usize::MAX - 4095, PAGE, 0), Err(MmError::InvalidInput));
    assert_eq!(map_geometry(0x1000, usize::MAX - 0x1000 - 4095, PageSize::Size4K), None);
    assert_eq!(sys_mmap(&mut aspace, 0x1000, usize::MAX - 0x1000 - 4095, RW, MAP_ANONYMOUS | MAP_PRIVATE, -1, 0, None), Err(MmError::InvalidInput));
    assert_eq!(aspace.read_byte(addr), Ok(0));
}

#[test]
fn dontneed_keeps_mapping_and_reads_zero() {
    let mut aspace = user_space();
    let addr = anon(&mut aspace, 0, 4 * PAGE, RW);
    aspace.write_byte(addr, 42).unwrap();
    assert_eq!(sys_madvise(&mut aspace, addr, 4 * PAGE, MADV_DONTNEED), Ok(0));
    assert_eq!(aspace.read_byte(addr), Ok(0));
}

#[test]
fn madvise_needs_full_coverage() {
    let mut aspace = user_space();
    let addr = anon(&mut aspace, 0x10_0000, 4 * PAGE, RW);
    assert_eq!(sys_madvise(&mut aspace, addr, 5 * PAGE, MADV_NORMAL), Err(MmError::InvalidInput));
    assert_eq!(sys_madvise(&mut aspace, addr, 4 * PAGE, MADV_WILLNEED), Ok(0));
    assert_eq!(sys_munmap(&mut aspace, addr + PAGE, PAGE), Ok(0));
    assert_eq!(sys_madvise(&mut aspace, addr, 4 * PAGE, MADV_DONTNEED), Err(MmError::InvalidInput));
}

#[test]
fn madvise_remove_by_page_size() {
    let mut aspace = user_space();
    let huge = sys_mmap(&mut aspace, 0, 0x20_0000, RW, MAP_ANONYMOUS | MAP_PRIVATE | MAP_HUGETLB, -1, 0, None).unwrap() as usize;
    assert_eq!(sys_madvise(&mut aspace, huge, PAGE, MADV_REMOVE), Err(MmError::OperationNotSupported));
    assert_eq!(aspace.read_byte(huge), Ok(0));
    let small = anon(&mut aspace, 0, 2 * PAGE, RW);
    assert_eq!(sys_madvise(&mut aspace, small, PAGE, MADV_REMOVE), Ok(0));
    assert_eq!(aspace.read_byte(small), Err(MmError::BadAddress));
    assert_eq!(aspace.read_byte(small + PAGE), Ok(0));
}

#[test]
fn madvise_random_keeps_leading_pages() {
    let mut aspace = user_space();
    let addr = anon(&mut aspace, 0, 8 * PAGE, RW);
    aspace.write_byte(addr, 1).unwrap();
    aspace.write_byte(addr + 4 * PAGE, 2).unwrap();
    aspace.write_byte(addr + 6 * PAGE, 3).unwrap();
    assert_eq!(sys_madvise(&mut aspace, addr, 8 * PAGE, MADV_RANDOM), Ok(0));
    assert_eq!(aspace.read_byte(addr), Ok(1));
    assert_eq!(aspace.read_byte(addr + 4 * PAGE), Ok(2));
    assert_eq!(aspace.read_byte(addr + 6 * PAGE), Ok(0));
}

#[test]
fn madvise_populate_needs_read_access() {
    let mut aspace = user_space();
    let addr = anon(&mut aspace, 0, 2 * PAGE, 0);
    assert_eq!(sys_madvise(&mut aspace, addr, 2 * PAGE, MADV_WILLNEED), Err(MmError::BadAddress));
    assert_eq!(sys_madvise(&mut aspace, addr, 2 * PAGE, MADV_SEQUENTIAL), Err(MmError::BadAddress));
    assert_eq!(aspace.read_byte(addr), Err(MmError::BadAddress));
}

#[test]
fn madvise_fork_flags() {
    let mut aspace = user_space();
    let addr = anon(&mut aspace, 0, 3 * PAGE, RW);
    assert_eq!(sys_madvise(&mut aspace, addr + PAGE, PAGE, MADV_DONTFORK), Ok(0));
    assert!(aspace.find_area(addr + PAGE).unwrap().attrs.dontfork);
    assert!(!aspace.find_area(addr).unwrap().attrs.dontfork);
    assert!(!aspace.find_area(addr + 2 * PAGE).unwrap().attrs.dontfork);
    assert_eq!(sys_madvise(&mut aspace, addr, 3 * PAGE, MADV_DOFORK), Ok(0));
    assert!(!aspace.find_area(addr + PAGE).unwrap().attrs.dontfork);
}

#[test]
fn mremap_growing_keeps_content() {
    let mut aspace = user_space();
    let addr = anon(&mut aspace, 0x10_0000, 2 * PAGE, RW);
    aspace.write_byte(addr, 0x11).unwrap();
    aspace.write_byte(addr + 2 * PAGE - 1, 0x22).unwrap();
    let n = sys_mremap(&mut aspace, addr, 2 * PAGE, 4 * PAGE, 0).unwrap() as usize;
    assert_eq!(n % PAGE, 0);
    assert_eq!(aspace.read_byte(n), Ok(0x11));
    assert_eq!(aspace.read_byte(n + 2 * PAGE - 1), Ok(0x22));
    assert_eq!(aspace.read_byte(n + 2 * PAGE), Ok(0));
    assert_eq!(aspace.read_byte(n + 4 * PAGE - 1), Ok(0));
    assert_eq!(aspace.read_byte(addr), Err(MmError::BadAddress));
}

#[test]
fn mremap_errors() {
    let mut aspace = user_space();
    assert_eq!(sys_mremap(&mut aspace, 0x10_0001, PAGE, PAGE, 0), Err(MmError::InvalidInput));
    assert_eq!(sys_mremap(&mut aspace, 0x10_0000, PAGE, PAGE, 0), Err(MmError::NoMemory));
    let ro = anon(&mut aspace, 0, PAGE, PROT_READ);
    assert_eq!(sys_mremap(&mut aspace, ro, PAGE, 2 * PAGE, 0), Err(MmError::BadAddress));
}

#[test]
fn populate_flag_maps_eagerly() {
    let mut aspace = user_space();
    let a = sys_mmap(&mut aspace, 0, PAGE, 0, MAP_ANONYMOUS | MAP_PRIVATE | MAP_POPULATE, -1, 0, None).unwrap() as usize;
    assert!(aspace.find_area(a).is_some());
}

#[test]
fn stubs_succeed() {
    assert_eq!(sys_msync(0x1000, PAGE, 0), Ok(0));
    assert_eq!(sys_mlock(0x1000, PAGE), Ok(0));
    assert_eq!(sys_mlock2(0x1000, PAGE, 1), Ok(0));
}
