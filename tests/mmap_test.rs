use starry_mmap::aspace::AddrSpace;
use starry_mmap::error::MmError;
use starry_mmap::flags::{
    MAP_ANONYMOUS, MAP_FIXED, MAP_HUGETLB, MAP_PRIVATE, MAP_SHARED, PROT_EXEC, PROT_READ,
    PROT_WRITE,
};
use starry_mmap::mmap::{sys_mmap, sys_mprotect, sys_munmap};

fn user_space() -> AddrSpace {
    AddrSpace::new(0x1000, 0x7fff_ffff_f000)
}

#[test]
fn test_mmap_anonymous_private() -> Result<(), MmError> {
    let mut aspace = user_space();
    let size = 4096 * 4;

    let addr = sys_mmap(&mut aspace, 0, size, PROT_READ | PROT_WRITE, MAP_ANONYMOUS | MAP_PRIVATE, -1, 0, None)?;
    let addr = addr as usize;

    aspace.write_byte(addr, 0x42)?;
    assert_eq!(aspace.read_byte(addr)?, 0x42);

    for i in 0..size {
        aspace.write_byte(addr + i, 0xFF)?;
    }
    assert_eq!(aspace.read_byte(addr)?, 0xFF);
    assert_eq!(aspace.read_byte(addr + size - 1)?, 0xFF);

    sys_munmap(&mut aspace, addr, size)?;
    Ok(())
}

#[test]
fn test_mmap_protection_flags() -> Result<(), MmError> {
    let mut aspace = user_space();
    let size = 4096;

    let addr_read = sys_mmap(&mut aspace, 0, size, PROT_READ, MAP_ANONYMOUS | MAP_PRIVATE, -1, 0, None)?;
    let addr_read = addr_read as usize;

    let addr_exec = sys_mmap(&mut aspace, 0, size, PROT_READ | PROT_EXEC, MAP_ANONYMOUS | MAP_PRIVATE, -1, 0, None)?;
    let addr_exec = addr_exec as usize;

    sys_munmap(&mut aspace, addr_read, size)?;
    sys_munmap(&mut aspace, addr_exec, size)?;
    Ok(())
}

#[test]
fn test_mmap_fixed() -> Result<(), MmError> {
    let mut aspace = user_space();
    let size = 4096;
    let fixed_addr = 0x10000000;

    let addr = sys_mmap(&mut aspace, fixed_addr, size, PROT_READ | PROT_WRITE, MAP_ANONYMOUS | MAP_PRIVATE | MAP_FIXED, -1, 0, None)?;
    assert_eq!(addr as usize, fixed_addr);

    aspace.write_byte(addr as usize, 0x42)?;
    assert_eq!(aspace.read_byte(addr as usize)?, 0x42);

    sys_munmap(&mut aspace, addr as usize, size)?;
    Ok(())
}

#[test]
fn test_mmap_errors() -> Result<(), MmError> {
    let mut aspace = user_space();
    let size = 4096;

    assert!(sys_mmap(&mut aspace, 0, size, 0xFFFF, MAP_ANONYMOUS | MAP_PRIVATE, -1, 0, None).is_err());
    assert!(sys_mmap(&mut aspace, 0, size, PROT_READ | PROT_WRITE, 0xFFFF, -1, 0, None).is_err());
    assert!(sys_mmap(&mut aspace, 0, size, PROT_READ | PROT_WRITE, MAP_ANONYMOUS | MAP_PRIVATE, -1, 1, None).is_err());
    assert!(sys_mmap(&mut aspace, 0, 0, PROT_READ | PROT_WRITE, MAP_ANONYMOUS | MAP_PRIVATE, -1, 0, None).is_err());
    Ok(())
}

#[test]
fn test_mprotect() -> Result<(), MmError> {
    let mut aspace = user_space();
    let size = 4096;

    let addr = sys_mmap(&mut aspace, 0, size, PROT_READ | PROT_WRITE, MAP_ANONYMOUS | MAP_PRIVATE, -1, 0, None)?;
    let addr = addr as usize;

    aspace.write_byte(addr, 0x42)?;

    assert!(sys_mprotect(&mut aspace, addr, size, PROT_READ).is_ok());
    assert!(sys_mprotect(&mut aspace, addr, size, PROT_READ | PROT_WRITE).is_ok());

    assert_eq!(aspace.read_byte(addr)?, 0x42);

    sys_munmap(&mut aspace, addr, size)?;
    Ok(())
}

#[test]
fn test_mmap_hugepages() -> Result<(), MmError> {
    let mut aspace = user_space();
    let size = 2 * 1024 * 1024;

    match sys_mmap(&mut aspace, 0, size, PROT_READ | PROT_WRITE, MAP_ANONYMOUS | MAP_PRIVATE | MAP_HUGETLB, -1, 0, None) {
        Ok(addr) => {
            let addr = addr as usize;
            aspace.write_byte(addr, 0x42)?;
            assert_eq!(aspace.read_byte(addr)?, 0x42);
            sys_munmap(&mut aspace, addr, size)?;
        }
        Err(_) => {
            println!("2MB huge page mapping not supported, skipping test");
        }
    }
    Ok(())
}

#[test]
fn test_mmap_shared_anonymous() -> Result<(), MmError> {
    let mut aspace = user_space();
    let size = 4096;

    let addr1 = sys_mmap(&mut aspace, 0, size, PROT_READ | PROT_WRITE, MAP_ANONYMOUS | MAP_SHARED, -1, 0, None)?;
    let addr1 = addr1 as usize;

    let addr2 = sys_mmap(&mut aspace, addr1, size, PROT_READ | PROT_WRITE, MAP_ANONYMOUS | MAP_SHARED | MAP_FIXED, -1, 0, None)?;
    let addr2 = addr2 as usize;

    aspace.write_byte(addr1, 0x42)?;
    assert_eq!(aspace.read_byte(addr2)?, 0x42);

    sys_munmap(&mut aspace, addr1, size)?;
    sys_munmap(&mut aspace, addr2, size)?;
    Ok(())
}
