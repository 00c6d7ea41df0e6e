use eonos::block::MemoryBlockDevice;
use eonos::elf::ElfError;
use eonos::fs_probe::{self, FsType};
use eonos::initramfs::{self, ArchiveFault, BootModule, Module};
use eonos::partition::{self, PartitionError, TableKind};
use eonos::pmm::{alloc_frame, free_frame_count, Kind, PhysicalMemory, Pmm, Region};
use eonos::process::program::started;
use eonos::process::first::{lost, InitPoll, InitReport, InitStep};
use eonos::process::trial::{make_test_elf, TEST_CODE_VIRT, TEST_MEMSZ};
use eonos::process::{self, ProcessTable, SpawnError};
use eonos::syscall::calls::{errno, give_line, sys_exec, sys_waitpid, EBADF, EFAULT, ENOENT};
use eonos::syscall::files::OpenFiles;
use eonos::syscall::line::{read_line, History};
use eonos::syscall::{self, syscall_dispatch, Action, SyscallFrame};
use eonos::text::{decimal_of, string_of, trim_matches};
use eonos::vfs::{self, FsError, Vfs};
use eonos::vmm::layout::{self, Mapping};
use eonos::vmm::user::{copy_from_user, copy_to_user};
use eonos::vmm::{Vmm, KERNEL_RW};

fn tar(files: &[(&str, &[u8])]) -> Vec<u8> {
    let mut out = vec![];
    for (name, data) in files {
        let mut h = vec![0u8; 512];
        h[..name.len()].copy_from_slice(name.as_bytes());
        let size = format!("{:011o}\0", data.len());
        h[124..136].copy_from_slice(size.as_bytes());
        h[156] = 0x30;
        h[257..262].copy_from_slice(b"ustar");
        for b in &mut h[148..156] {
            *b = 0x20;
        }
        let sum: u32 = h.iter().map(|&b| b as u32).sum();
        let text = format!("{:06o}\0 ", sum);
        h[148..156].copy_from_slice(text.as_bytes());
        out.extend_from_slice(&h);
        out.extend_from_slice(data);
        while out.len() % 512 != 0 {
            out.push(0);
        }
    }
    out.extend_from_slice(&[0u8; 1024]);
    out
}

fn paged() -> (PhysicalMemory, Option<Vmm>) {
    let map = [Region { base: 0x10_0000, len: 0x20_0000, kind: Kind::Usable }];
    let p = Pmm::init(&map).unwrap();
    let len = p.total_frames * 4096;
    let mut mem = PhysicalMemory { hhdm: 0xffff_8000_0000_0000, pmm: Some(p), bytes: vec![0u8; len] };
    let m = Mapping { base: mem.hhdm, start: 0, end: 0x30_0000, flags: KERNEL_RW, huge: true };
    let v = layout::init(&mut mem, &[m]).unwrap();
    (mem, Some(v))
}

#[test]
fn archives_are_read() {
    let elf = make_test_elf(TEST_CODE_VIRT, TEST_CODE_VIRT, 4, TEST_MEMSZ, 5);
    let a = tar(&[("./init", &elf), ("etc/motd", b"welcome")]);
    assert_eq!(initramfs::count_files(Some(&a)), 2);
    assert_eq!(initramfs::find(Some(&a), "/etc/motd"), Some(&b"welcome"[..]));
    assert_eq!(initramfs::find(Some(&a), "etc/none"), None);
    assert_eq!(initramfs::init(&a, true, true), Module::Files(2));
    assert_eq!(initramfs::init(&a, true, false), Module::NotMapped);
    assert_eq!(initramfs::init(&[0; 10], true, true), Module::TooSmall);
    assert_eq!(initramfs::init(&[0; 1024], true, true), Module::Empty);
    assert_eq!(initramfs::self_test(Some(&a)), Ok(elf.len()));
    assert_eq!(initramfs::self_test(None), Err(ArchiveFault::Missing));
    let other = tar(&[("init", b"#!")]);
    assert_eq!(initramfs::self_test(Some(&other)), Err(ArchiveFault::InitNotElf));
    let none = tar(&[("x", b"y")]);
    assert_eq!(initramfs::self_test(Some(&none)), Err(ArchiveFault::NoInit));
    let odd = tar(&[("bad\u{fffd}", b"1")]);
    assert_eq!(initramfs::entries(Some(&odd)).next().unwrap().name, "bad\u{fffd}");
    assert_eq!(initramfs::parse_octal(b"0000017\0"), Some(15));
}

#[test]
fn names_that_are_no_text_are_replaced() {
    let mut a = tar(&[("abc", b"1")]);
    a[1] = 0xff;
    let b = &mut a[..512];
    for x in &mut b[148..156] {
        *x = 0x20;
    }
    let sum: u32 = b.iter().map(|&x| x as u32).sum();
    let text = format!("{:06o}\0 ", sum);
    b[148..156].copy_from_slice(text.as_bytes());
    assert_eq!(initramfs::entries(Some(&a)).next().unwrap().name, "a\u{fffd}c");
}

#[test]
fn boot_modules_are_chosen_by_their_paths() {
    let (mem, v) = paged();
    let at = mem.hhdm + 0x1000;
    let m = |path: &str, base: u64, size: u64| BootModule { path: path.to_string(), base, size };
    let all = vec![m("/boot/initramfs.tar", at, 10), m("/boot/fat32.img", 0x5000, 10), m("/e.img", at, 0)];
    assert_eq!(initramfs::module_bytes(&all, "initramfs.tar", &mem, &v), Some(0));
    assert_eq!(initramfs::module_bytes(&all, "fat32.img", &mem, &v), None);
    assert_eq!(initramfs::module_bytes(&all, "e.img", &mem, &v), None);
    assert_eq!(initramfs::module_bytes(&all, "other", &mem, &v), None);
}

fn sys(n: u64, a: u64, b: u64, c: u64) -> SyscallFrame {
    SyscallFrame {
        rax: n, rdi: a, rsi: b, rdx: c, r10: 0, r8: 0, r9: 0, rip: 0, rflags: 0, user_rsp: 0,
    }
}

#[test]
fn programs_are_prepared_and_make_calls() {
    let elf = make_test_elf(TEST_CODE_VIRT, TEST_CODE_VIRT, 4, TEST_MEMSZ, 5);
    let archive = tar(&[("init", &elf), ("junk", b"no"), ("motd", b"hello there")]);
    let v: Vfs<MemoryBlockDevice> = vfs::init(Some(&archive));
    let (mut mem, k) = paged();
    let p = process::spawn(&mut mem, &k, &v, "/nothing").unwrap();
    assert!(matches!(p, Err(SpawnError::NotFound)));
    let p = process::spawn(&mut mem, &k, &v, "/junk").unwrap();
    assert!(matches!(p, Err(SpawnError::Elf(ElfError::TooShort))));
    let p = process::spawn(&mut mem, &k, &v, "/init");
    let p = match p {
        Ok(Ok(p)) => p,
        _ => panic!("not prepared"),
    };
    let root = p.aspace.phys();
    let mut argc = [0u8; 8];
    assert!(copy_from_user(&mem, root, &mut argc, p.rsp));
    assert_eq!(u64::from_le_bytes(argc), 1);
    let mut files = OpenFiles::new();
    let at = p.rsp - 512;
    assert!(copy_to_user(&mut mem, root, at, b"/motd"));
    let r = syscall_dispatch(&mut files, &v, &mut mem, root, 7, 123, &sys(2, at, 5, 0));
    let fd = match r {
        Action::Return(fd) => fd,
        _ => panic!("not opened"),
    };
    assert!(fd >= 3);
    for want in [&b"hello"[..], b" ther", b"e", b""] {
        let r = syscall_dispatch(&mut files, &v, &mut mem, root, 7, 0, &sys(0, fd, at + 64, 5));
        assert!(matches!(r, Action::Return(n) if n == want.len() as u64));
        let mut got = vec![0u8; want.len()];
        assert!(copy_from_user(&mem, root, &mut got, at + 64));
        assert_eq!(got, want);
    }
    let mut call = |f: SyscallFrame| syscall_dispatch(&mut files, &v, &mut mem, root, 7, 123, &f);
    assert!(matches!(call(sys(3, fd, 0, 0)), Action::Return(0)));
    assert!(matches!(call(sys(3, fd, 0, 0)), Action::Return(e) if e == errno(EBADF)));
    assert!(matches!(call(sys(2, at, 4, 0)), Action::Return(e) if e == errno(ENOENT)));
    assert!(matches!(call(sys(1, 1, at, 5)), Action::Show(b) if b == b"/motd"));
    assert!(matches!(call(sys(1, 1, 0x1000, 5)), Action::Return(e) if e == errno(EFAULT)));
    assert!(matches!(call(sys(39, 0, 0, 0)), Action::Return(7)));
    assert!(matches!(call(sys(9003, 0, 0, 0)), Action::Return(123)));
    assert!(matches!(call(sys(60, 3, 0, 0)), Action::Exit(3)));
    assert!(matches!(call(sys(62, 7, 9, 0)), Action::Exit(137)));
    assert!(matches!(call(sys(24, 0, 0, 0)), Action::Yield));
    assert_eq!(give_line(&mut mem, root, at, b"typed\n"), 6);
    assert_eq!(syscall::test_program()[20], 0x0f);
    assert_eq!(syscall::star_value(), 0x0010_0008_0000_0000);
}

#[test]
fn lines_are_edited() {
    let mut h = History::new();
    let r = read_line(80, b"helo\x1b[Dl\x7fl\r", &mut h);
    assert_eq!(r.line.as_ref().unwrap()[..5], *b"hello");
    let r = read_line(80, b"ab\x08c\n", &mut h);
    assert_eq!(r.line.as_ref().unwrap()[..2], *b"ac");
    assert_eq!(r.used, 5);
    let r = read_line(80, b"\x1b[A\n", &mut h);
    assert_eq!(r.line.as_ref().unwrap()[..2], *b"ac");
    let r = read_line(80, b"unfinished", &mut h);
    assert!(r.line.is_none());
    let r = read_line(0, b"x", &mut h);
    assert_eq!(r.used, 0);
}

#[test]
fn an_exit_status_is_collected_once() {
    let mut t = ProcessTable::new();
    let mut files = OpenFiles::new();
    process::register(&mut t, 4, "init");
    assert_eq!(process::take_exit_status(&mut t, 4), None);
    assert_eq!(process::exit_current(&mut t, &mut files, 4, 9), "init");
    assert_eq!(process::list(&t)[0].exit_status, Some(9));
    assert_eq!(process::take_exit_status(&mut t, 4), Some(9));
    assert_eq!(process::take_exit_status(&mut t, 4), None);
    assert_eq!(SpawnError::NotFound.message(), "file not found in the initramfs");
    assert!(matches!(
        process::start_init(Err(SpawnError::NoMemory), true, 0, 0, 0),
        InitStep::Failed(SpawnError::NoMemory)
    ));
    match process::start_init(Ok(5), true, 1000, 100, 0) {
        InitStep::Wait(w) => {
            assert!(matches!(w.poll(None, 1000), InitPoll::Again));
            assert!(matches!(w.poll(Some(1), 1000), InitPoll::Exited(1)));
            assert!(matches!(w.poll(None, u64::MAX), InitPoll::TimedOut));
            assert!(matches!(w.finish(1, 100, 0), InitReport::Status(1)));
            assert!(matches!(w.finish(0, 100, 0), InitReport::Clean));
            assert!(matches!(w.finish(0, 98, 0), InitReport::Leaked(2)));
        }
        _ => panic!("not waiting"),
    }
    assert_eq!(lost(10, 8, 0, 4096), 1);
}

#[test]
fn partitions_are_found() {
    let mut b = vec![0u8; 100 * 512];
    {
        let d = MemoryBlockDevice::new(&b).unwrap();
        assert_eq!(partition::scan(&d).err(), Some(PartitionError::InvalidTable));
    }
    b[510] = 0x55;
    b[511] = 0xaa;
    b[446 + 4] = 0x0c;
    b[446 + 8] = 10;
    b[446 + 12] = 20;
    {
        let d = MemoryBlockDevice::new(&b).unwrap();
        let p = partition::scan(&d).unwrap();
        assert_eq!(p.len(), 1);
        assert_eq!((p[0].start_lba, p[0].sectors, p[0].table), (10, 20, TableKind::Mbr));
    }
    assert_eq!(partition::crc32(b"123456789"), 0xcbf4_3926);
}

#[test]
fn filesystems_are_told_apart() {
    let mut b = vec![0u8; 16 * 512];
    {
        let d = MemoryBlockDevice::new(&b).unwrap();
        assert_eq!(fs_probe::detect(&d), FsType::Unknown);
    }
    b[3..11].copy_from_slice(b"NTFS    ");
    b[510] = 0x55;
    b[511] = 0xaa;
    let d = MemoryBlockDevice::new(&b).unwrap();
    assert_eq!(fs_probe::detect(&d), FsType::Ntfs);
    assert_eq!(fs_probe::inspect(&d).kind.name(), "ntfs");
    assert_eq!(fs_probe::details::hex_uuid(&[0xab, 1]), "ab01");
}

#[test]
fn paths_have_one_normal_form() {
    let n = |p: &str| vfs::normalize(p).map(|c| c.into_iter().collect::<String>());
    assert_eq!(n("/a//b/./c/../d").unwrap(), "/a/b/d");
    assert_eq!(n(&n("/a/../b").unwrap()).unwrap(), "/b");
    assert_eq!(n("/").unwrap(), "/");
    assert_eq!(n("/a/../.."), Err(FsError::InvalidPath));
    assert_eq!(decimal_of(120), vec!['1', '2', '0']);
    assert_eq!(string_of(&trim_matches(&['/', 'x', '/'], '/')), "x");
}

#[test]
fn all_that_a_process_had_comes_back() {
    let elf = make_test_elf(TEST_CODE_VIRT, TEST_CODE_VIRT, 4, TEST_MEMSZ, 5);
    let archive = tar(&[("init", &elf)]);
    let v: Vfs<MemoryBlockDevice> = vfs::init(Some(&archive));
    let (mut mem, k) = paged();
    let free = free_frame_count(&mem);
    let mut table = ProcessTable::new();
    let p = match process::spawn(&mut mem, &k, &v, "/init") {
        Ok(Ok(p)) => p,
        _ => panic!("not prepared"),
    };
    assert!(free_frame_count(&mem) < free - 18);
    let r = started(&mut table, &mut mem, p, "/init", None);
    assert!(matches!(r, Err(SpawnError::NoThread)));
    assert_eq!(free_frame_count(&mem), free);
    while free_frame_count(&mem) > 12 {
        alloc_frame(&mut mem);
    }
    let p = process::spawn(&mut mem, &k, &v, "/init");
    assert!(matches!(p, Ok(Err(SpawnError::NoMemory))));
    assert_eq!(free_frame_count(&mem), 12);
}

#[test]
fn waiting_gives_the_status_to_memory_of_the_process_only() {
    let elf = make_test_elf(TEST_CODE_VIRT, TEST_CODE_VIRT, 4, TEST_MEMSZ, 5);
    let archive = tar(&[("init", &elf)]);
    let v: Vfs<MemoryBlockDevice> = vfs::init(Some(&archive));
    let (mut mem, k) = paged();
    let p = match process::spawn(&mut mem, &k, &v, "/init") {
        Ok(Ok(p)) => p,
        _ => panic!("not prepared"),
    };
    let root = p.aspace.phys();
    let at = p.rsp - 512;
    let mut table = ProcessTable::new();
    let mut files = OpenFiles::new();
    process::register(&mut table, 5, "child");
    assert_eq!(sys_waitpid(&mut table, &mut mem, root, 5, at), None);
    process::exit_current(&mut table, &mut files, 5, -2);
    assert_eq!(sys_waitpid(&mut table, &mut mem, root, 5, at), Some(5));
    let mut status = [0u8; 4];
    assert!(copy_from_user(&mem, root, &mut status, at));
    assert_eq!(i32::from_le_bytes(status), -2);
    assert_eq!(sys_waitpid(&mut table, &mut mem, root, 5, at), None);
    process::register(&mut table, 6, "child");
    process::exit_current(&mut table, &mut files, 6, 0);
    let before = mem.bytes.clone();
    assert_eq!(sys_waitpid(&mut table, &mut mem, root, 6, TEST_CODE_VIRT), Some(errno(EFAULT)));
    assert_eq!(mem.bytes, before);
    assert_eq!(sys_exec(Ok(9)), 9);
    assert_eq!(sys_exec(Err(SpawnError::NoThread)), errno(ENOENT));
}

#[test]
fn two_processes_share_no_memory() {
    let elf = make_test_elf(TEST_CODE_VIRT, TEST_CODE_VIRT, 4, TEST_MEMSZ, 5);
    let archive = tar(&[("init", &elf)]);
    let v: Vfs<MemoryBlockDevice> = vfs::init(Some(&archive));
    let (mut mem, k) = paged();
    let mut made = || match process::spawn(&mut mem, &k, &v, "/init") {
        Ok(Ok(p)) => p,
        _ => panic!("not prepared"),
    };
    let (a, b) = (made(), made());
    let pages = [TEST_CODE_VIRT, TEST_CODE_VIRT + 4096, a.rsp, a.rsp - 4096 * 15];
    for u in pages {
        let x = a.aspace.translate(&mem, u).unwrap();
        for w in pages {
            assert_ne!(x / 4096, b.aspace.translate(&mem, w).unwrap() / 4096);
        }
    }
    assert!(copy_to_user(&mut mem, a.aspace.phys(), a.rsp, b"mine"));
    let mut other = [0u8; 4];
    assert!(copy_from_user(&mem, b.aspace.phys(), &mut other, b.rsp));
    assert_ne!(&other, b"mine");
    assert!(!copy_to_user(&mut mem, a.aspace.phys(), TEST_CODE_VIRT, b"x"));
    let hhdm = mem.hhdm;
    assert!(!copy_from_user(&mem, a.aspace.phys(), &mut other, hhdm));
}
