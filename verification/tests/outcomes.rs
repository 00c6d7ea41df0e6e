use eonos::block::MemoryBlockDevice;
use eonos::elf::ElfError;
use eonos::heap::growth::{hand_out, HeapTest};
use eonos::heap::{self, FreeList};
use eonos::pmm::trial::FrameTrial;
use eonos::pmm::{self, Kind, PhysicalMemory, Pmm, Region};
use eonos::process::trial::{make_test_elf, LoaderTrial, TEST_CODE_VIRT, TEST_MEMSZ};
use eonos::process::{self, SpawnError};
use eonos::scheduler::stacks::{create_thread, free_thread};
use eonos::scheduler::Scheduler;
use eonos::vfs::{self, Vfs};
use eonos::vmm::layout::{self, Mapping};
use eonos::vmm::trial::MapTrial;
use eonos::vmm::user::copy_from_user;
use eonos::vmm::{self, MapError, Vmm, KERNEL_RW};

fn paged() -> (PhysicalMemory, Option<Vmm>) {
    let map = [Region { base: 0x10_0000, len: 0x20_0000, kind: Kind::Usable }];
    let p = Pmm::init(&map).unwrap();
    let len = p.total_frames * 4096;
    let mut mem = PhysicalMemory { hhdm: 0xffff_8000_0000_0000, pmm: Some(p), bytes: vec![0u8; len] };
    let m = Mapping { base: mem.hhdm, start: 0, end: 0x30_0000, flags: KERNEL_RW, huge: true };
    let v = layout::init(&mut mem, &[m]).unwrap();
    (mem, Some(v))
}

fn drain(mem: &mut PhysicalMemory, left: usize) {
    while pmm::free_frame_count(mem) > left {
        pmm::alloc_frame(mem).unwrap();
    }
}

/// An archive with one program in it.
fn archive() -> Vec<u8> {
    let elf = make_test_elf(TEST_CODE_VIRT, TEST_CODE_VIRT, 4, TEST_MEMSZ, 5);
    let mut h = vec![0u8; 512];
    h[..4].copy_from_slice(b"init");
    h[124..136].copy_from_slice(format!("{:011o}\0", elf.len()).as_bytes());
    h[156] = 0x30;
    h[257..262].copy_from_slice(b"ustar");
    h[148..156].copy_from_slice(&[0x20; 8]);
    let sum: u32 = h.iter().map(|&b| u32::from(b)).sum();
    h[148..156].copy_from_slice(format!("{:06o}\0 ", sum).as_bytes());
    h.extend_from_slice(&elf);
    h.resize(h.len().div_ceil(512) * 512 + 1024, 0);
    h
}

#[test]
fn a_program_takes_its_frames_or_is_refused() {
    let a = archive();
    let v: Vfs<MemoryBlockDevice> = vfs::init(Some(&a));
    for free in 0..28 {
        let (mut mem, k) = paged();
        drain(&mut mem, free);
        let r = process::spawn(&mut mem, &k, &v, "/init");
        match free {
            0 => assert!(matches!(r, Ok(Err(SpawnError::NoMemory)))),
            1..=2 => assert!(matches!(r, Ok(Err(SpawnError::Elf(ElfError::NoMemory))))),
            3..=5 | 7..=9 => assert!(matches!(r, Err(MapError::OutOfMemory))),
            6 | 10..=24 => assert!(matches!(r, Ok(Err(SpawnError::NoMemory)))),
            _ => {
                assert!(matches!(r, Ok(Ok(_))));
                assert_eq!(pmm::free_frame_count(&mem), free - 25);
            }
        }
        if matches!(r, Ok(Err(_))) {
            assert_eq!(pmm::free_frame_count(&mem), free);
        }
    }
}

#[test]
fn programs_leave_each_other_alone() {
    let a = archive();
    let v: Vfs<MemoryBlockDevice> = vfs::init(Some(&a));
    let (mut mem, k) = paged();
    let one = process::spawn(&mut mem, &k, &v, "/init").unwrap().unwrap();
    let kept = mem.bytes.clone();
    let used = pmm::free_frame_count(&mem);
    let two = process::spawn(&mut mem, &k, &v, "/init").unwrap().unwrap();
    assert_ne!(one.aspace.phys(), two.aspace.phys());
    assert_eq!(pmm::free_frame_count(&mem), used - 25);
    // What the first one sees is where it was and as it was.
    for at in (TEST_CODE_VIRT..TEST_CODE_VIRT + TEST_MEMSZ).step_by(64) {
        let p = one.aspace.translate(&mem, at).unwrap();
        assert_eq!(mem.bytes[p as usize], kept[p as usize]);
        assert_ne!(two.aspace.translate(&mem, at), Some(p));
    }
    // The kernel's half is one for all.
    for at in [mem.hhdm, mem.hhdm + 0x12_3000] {
        let p = vmm::translate(&mem, &k, at);
        assert_eq!(one.aspace.translate(&mem, at), p);
        assert_eq!(two.aspace.translate(&mem, at), p);
    }
    let mut code = [0u8; 4];
    assert!(copy_from_user(&mem, two.aspace.phys(), &mut code, TEST_CODE_VIRT));
}

#[test]
fn the_loaders_trial_says_what_is_missing() {
    for free in 0..8 {
        let (mut mem, k) = paged();
        drain(&mut mem, free);
        let before = mem.bytes.clone();
        let r = process::self_test(&mut mem, &k);
        match free {
            0 => {
                assert!(matches!(r, Ok(LoaderTrial::NoMemory)));
                assert_eq!(mem.bytes, before);
            }
            1..=2 => assert!(matches!(r, Ok(LoaderTrial::GoodRefused(Err(ElfError::NoMemory))))),
            3..=5 => assert!(matches!(r, Err(MapError::OutOfMemory))),
            _ => {
                assert!(matches!(r, Ok(LoaderTrial::Passed(10))));
                assert_eq!(pmm::free_frame_count(&mem), free);
            }
        }
    }
    let (mut mem, _) = paged();
    assert!(matches!(process::self_test(&mut mem, &None), Ok(LoaderTrial::NoMemory)));
}

#[test]
fn the_frames_trial_wants_four_in_a_row() {
    let (mut mem, _) = paged();
    drain(&mut mem, 3);
    assert_eq!(pmm::self_test(&mut mem), FrameTrial::ContiguousFailed);
    let (mut mem, _) = paged();
    let next = pmm::alloc_frame(&mut mem).unwrap();
    pmm::free_frame(&mut mem, next).unwrap();
    match pmm::self_test(&mut mem) {
        FrameTrial::Passed { first, second, run, .. } => {
            assert_eq!(first, next);
            assert_eq!(second, next + 4096);
            assert_eq!(run, next + 2 * 4096);
        }
        other => panic!("{:?}", other),
    }
}

#[test]
fn the_mapping_trial_leaves_only_tables() {
    let (mut mem, v) = paged();
    let free = pmm::free_frame_count(&mem);
    let next = pmm::alloc_frame(&mut mem).unwrap();
    pmm::free_frame(&mut mem, next).unwrap();
    assert_eq!(vmm::self_test(&mut mem, &v), Ok(MapTrial::Passed(next)));
    let left = pmm::free_frame_count(&mem);
    assert!(left <= free && free - left <= 3);
    assert!(matches!(vmm::self_test(&mut mem, &v), Ok(MapTrial::Passed(_))));
    assert_eq!(pmm::free_frame_count(&mem), left);
}

#[test]
fn what_the_heap_gives_is_mapped() {
    let (mut mem, v) = paged();
    let mut list = FreeList::new();
    assert!(heap::growth::init(&mut list, &mut mem, &v).is_ok());
    for page in 0..heap::heap_size(&list) / 4096 {
        assert!(vmm::translate(&mem, &v, heap::HEAP_START + 4096 * page).is_some());
    }
    let size = heap::heap_size(&list) + 1;
    let at = hand_out(&mut list, &mut mem, &v, size, 8).unwrap().unwrap();
    let mut seen = vec![];
    for page in at / 4096..(at + size - 1) / 4096 + 1 {
        let p = vmm::translate(&mem, &v, 4096 * page).unwrap();
        assert!(p < 0x30_0000 && !seen.contains(&p));
        seen.push(p);
    }
}

#[test]
fn the_heaps_trial_gives_everything_back() {
    let (mut mem, v) = paged();
    let mut list = FreeList::new();
    assert!(heap::growth::init(&mut list, &mut mem, &v).is_ok());
    let before = heap::heap_size(&list);
    match heap::self_test(&mut list, &mut mem, &v) {
        Ok(HeapTest::Passed { .. }) => {}
        other => panic!("{:?}", other.is_ok()),
    }
    assert_eq!(heap::allocated_bytes(&list), 0);
    assert!(heap::heap_size(&list) >= 300 * 512);
    assert!(heap::heap_size(&list) >= before);
    assert_eq!(list.blocks.len(), 1);
}

#[test]
fn registers_are_mapped_beside_all_else() {
    let (mut mem, v) = paged();
    let virt = 0xffff_ffff_9000_0000;
    let phys = pmm::alloc_frame(&mut mem).unwrap();
    vmm::map_page(&mut mem, &v, virt, phys, KERNEL_RW).unwrap();
    mem.bytes[phys as usize] = 42;
    let base = mem.hhdm + 0xfee0_0000;
    assert_eq!(vmm::map_mmio(&mut mem, &v, 0xfee0_0000, 0x2001), Some(base));
    for page in 0..3 {
        let at = base + 4096 * page;
        assert_eq!(vmm::translate(&mem, &v, at), Some(0xfee0_0000 + 4096 * page));
    }
    assert_eq!(vmm::translate(&mem, &v, base + 3 * 4096), None);
    assert_eq!(vmm::translate(&mem, &v, base - 1), None);
    assert_eq!(vmm::translate(&mem, &v, virt), Some(phys));
    assert_eq!(vmm::translate(&mem, &v, mem.hhdm + 0x1234), Some(0x1234));
    assert_eq!(mem.bytes[phys as usize], 42);
}

#[test]
fn unmapping_splits_for_one_frame() {
    let (mut mem, v) = paged();
    let free = pmm::free_frame_count(&mem);
    let at = mem.hhdm + 0x5000;
    assert_eq!(vmm::unmap_page(&mut mem, &v, at), Ok(()));
    assert_eq!(pmm::free_frame_count(&mem), free - 1);
    assert_eq!(vmm::translate(&mem, &v, at), None);
    assert_eq!(vmm::translate(&mem, &v, at - 1), Some(0x4fff));
    assert_eq!(vmm::translate(&mem, &v, at + 0x1000), Some(0x6000));
    assert_eq!(vmm::unmap_page(&mut mem, &v, at + 0x1000), Ok(()));
    assert_eq!(pmm::free_frame_count(&mem), free - 1);
}

#[test]
fn heap_and_stacks_leave_each_other_alone() {
    let (mut mem, v) = paged();
    let k = v.unwrap();
    let mut list = FreeList::new();
    assert!(heap::growth::init(&mut list, &mut mem, &v).is_ok());
    let loan = hand_out(&mut list, &mut mem, &v, 100, 8).unwrap().unwrap();
    let at = vmm::translate(&mem, &v, loan).unwrap();
    mem.bytes[at as usize] = 77;
    let mut s = Scheduler::new();
    let make = |s: &mut Scheduler, mem: &mut PhysicalMemory| {
        create_thread(s, mem, &k, "t", 0x1000, 0x2000, false).unwrap().unwrap()
    };
    let one = make(&mut s, &mut mem);
    let two = make(&mut s, &mut mem);
    assert_ne!(one.stack_slot, two.stack_slot);
    let below = two.rsp - 8;
    let place = vmm::translate(&mem, &v, below).unwrap();
    assert_ne!(vmm::translate(&mem, &v, one.rsp - 8), Some(place));
    mem.bytes[place as usize] = 55;
    let size = heap::heap_size(&list);
    hand_out(&mut list, &mut mem, &v, size, 8).unwrap().unwrap();
    free_thread(&mut s, &mut mem, &k, one);
    assert_eq!(vmm::translate(&mem, &v, one.rsp), None);
    assert_eq!(vmm::translate(&mem, &v, below), Some(place));
    assert_eq!(vmm::translate(&mem, &v, loan), Some(at));
    assert_eq!((mem.bytes[at as usize], mem.bytes[place as usize]), (77, 55));
}

#[test]
fn the_heap_begins_with_as_many_pages_as_there_are_frames_for() {
    for free in [0, 1, 2, 3, 10, 40] {
        let (mut mem, v) = paged();
        drain(&mut mem, free);
        let mut list = FreeList::new();
        let r = heap::growth::init(&mut list, &mut mem, &v);
        // Three tables are missing on the way to the first page.
        let pages = match free {
            0 => 0,
            1..=3 => {
                assert_eq!(r, Err(MapError::OutOfMemory));
                continue;
            }
            n => (n - 3).min(16),
        };
        assert_eq!(r, Ok(pages > 0));
        assert_eq!(heap::heap_size(&list), 4096 * pages as u64);
        if free > 0 {
            assert_eq!(pmm::free_frame_count(&mem), free - 3 - pages);
        }
    }
}
