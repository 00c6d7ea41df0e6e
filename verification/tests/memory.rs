use eonos::elf::{self, ElfError};
use eonos::heap::growth::{can_take_back, hand_out, hand_out_now, take_back, HeapTest};
use eonos::heap::{self, FreeList};
use eonos::pmm::trial::{size_of_memory, FrameTrial};
use eonos::pmm::{self, FreeError, InitError, Kind, PhysicalMemory, Pmm, Region};
use eonos::process::trial::{bad_image, make_test_elf, LoaderTrial, TEST_CODE_VIRT, TEST_MEMSZ};
use eonos::scheduler::stacks::{self, free_thread, slot_base, spawn, STACK_PAGES};
use eonos::scheduler::{stack_slots_in_use, Scheduler, MAX_SLOTS};
use eonos::vmm::layout::{self, merge_ranges, Mapping, VmmError};
use eonos::vmm::plan::{kernel_sections, plan, Picture, Section};
use eonos::vmm::space::{create_address_space, free_user_half};
use eonos::vmm::trial::{MapTrial, SpaceTrial};
use eonos::vmm::user::{copy_from_user, copy_to_user};
use eonos::vmm::{
    self, MapError, Vmm, KERNEL_RO, KERNEL_RW, KERNEL_RX, KERNEL_UC, KERNEL_WC, USER_RW,
};

fn region(base: u64, len: u64, kind: Kind) -> Region {
    Region { base, len, kind }
}

/// Memory of two megabytes above the first, one of which is the bootloader's.
fn memory() -> PhysicalMemory {
    let map = [
        region(0, 0x9_f000, Kind::Usable),
        region(0x10_0000, 0x10_0000, Kind::Usable),
        region(0x20_0000, 0x10_0000, Kind::BootloaderReclaimable),
    ];
    let p = Pmm::init(&map).unwrap();
    let len = p.total_frames * 4096;
    PhysicalMemory { hhdm: 0xffff_8000_0000_0000, pmm: Some(p), bytes: vec![0u8; len] }
}

fn paged() -> (PhysicalMemory, Option<Vmm>) {
    let mut mem = memory();
    let map = Mapping {
        base: mem.hhdm,
        start: 0,
        end: 0x30_0000,
        flags: KERNEL_RW,
        huge: true,
    };
    let v = layout::init(&mut mem, &[map]).unwrap();
    (mem, Some(v))
}

#[test]
fn frames_are_handed_out_once() {
    let mut mem = memory();
    let free = pmm::free_frame_count(&mem);
    assert_eq!(free, 255);
    assert_eq!(pmm::phys_top(&mem), 0x30_0000);
    let a = pmm::alloc_frame(&mut mem).unwrap();
    let b = pmm::alloc_frame(&mut mem).unwrap();
    assert_ne!(a, b);
    assert!(a >= 0x10_0000 && a % 4096 == 0);
    let run = pmm::alloc_contiguous(&mut mem, 4).unwrap();
    assert_eq!(pmm::free_frame_count(&mem), free - 6);
    assert_eq!(pmm::free_frame(&mut mem, a), Ok(()));
    assert_eq!(pmm::free_frame(&mut mem, a), Err(FreeError::NotAllocated));
    assert_eq!(pmm::free_frame(&mut mem, a + 1), Err(FreeError::Unaligned));
    assert_eq!(pmm::free_frame(&mut mem, 0x4000_0000), Err(FreeError::OutOfRange));
    assert_eq!(pmm::free_frames(&mut mem, run, 4), Ok(()));
    assert_eq!(pmm::alloc_contiguous(&mut mem, 300), None);
    mem.bytes[a as usize] = 7;
    let z = pmm::alloc_frame_zeroed(&mut mem).unwrap();
    assert_eq!(z, a);
    assert_eq!(mem.bytes[a as usize], 0);
    let mut none = PhysicalMemory { hhdm: 0, pmm: None, bytes: vec![] };
    assert_eq!(pmm::alloc_frame(&mut none), None);
    assert_eq!(pmm::free_frame(&mut none, 0), Err(FreeError::NotInitialized));
    assert_eq!(FreeError::Unaligned.as_str(), "address not page aligned");
}

#[test]
fn a_memory_map_must_offer_something() {
    assert_eq!(Pmm::init(&[]).err(), Some(InitError::NoUsableMemory));
    let low = [region(0x1000, 0x1000, Kind::Usable)];
    assert_eq!(Pmm::init(&low).err(), Some(InitError::NoRoomForBitmap));
    assert_eq!(Kind::AcpiNvs.name(), "ACPI NVS");
    assert_eq!(size_of_memory(0x30_0000), "3 MiB");
    assert_eq!(size_of_memory(5000), "4 KiB");
}

#[test]
fn the_bootloaders_memory_comes_back() {
    let mut mem = memory();
    let free = pmm::free_frame_count(&mem);
    let usable = pmm::usable_frame_count(&mem);
    assert_eq!(pmm::reclaim_bootloader_memory(&mut mem), 256);
    assert_eq!(pmm::free_frame_count(&mem), free + 256);
    assert_eq!(pmm::usable_frame_count(&mem), usable + 256);
    assert_eq!(pmm::free_frame(&mut mem, 0x20_0000), Err(FreeError::NotAllocated));
}

#[test]
fn the_trial_of_the_frames_passes() {
    let mut mem = memory();
    let free = pmm::free_frame_count(&mem);
    match pmm::self_test(&mut mem) {
        FrameTrial::Passed { first, second, free: after, .. } => {
            assert_ne!(first, second);
            assert_eq!(after, free);
        }
        other => panic!("{:?}", other),
    }
    while pmm::free_frame_count(&mem) > 1 {
        pmm::alloc_frame(&mut mem);
    }
    assert_eq!(pmm::self_test(&mut mem), FrameTrial::AllocationFailed);
    assert_eq!(pmm::self_test(&mut mem), FrameTrial::NoFrames);
}

#[test]
fn pages_are_mapped_and_unmapped() {
    let (mut mem, v) = paged();
    let virt = 0xffff_ffff_9000_0000;
    let phys = pmm::alloc_frame(&mut mem).unwrap();
    assert_eq!(vmm::translate(&mem, &v, virt), None);
    assert_eq!(vmm::map_page(&mut mem, &v, virt, phys, KERNEL_RW), Ok(()));
    assert_eq!(vmm::translate(&mem, &v, virt + 5), Some(phys + 5));
    assert_eq!(vmm::translate(&mem, &v, mem.hhdm + 0x12_3456), Some(0x12_3456));
    assert_eq!(vmm::try_translate(&mem, None, virt), None);
    assert_eq!(vmm::try_translate(&mem, Some(&v), virt), Some(phys));
    assert_eq!(vmm::unmap_page(&mut mem, &v, virt), Ok(()));
    assert_eq!(vmm::translate(&mem, &v, virt), None);
    let huge = mem.hhdm + 0x1000;
    assert_eq!(vmm::map_page(&mut mem, &v, huge, phys, KERNEL_RW), Ok(()));
    assert_eq!(vmm::translate(&mem, &v, huge), Some(phys));
    assert_eq!(vmm::unmap_page(&mut mem, &v, huge), Ok(()));
    assert_eq!(vmm::translate(&mem, &v, huge), None);
    assert_eq!(vmm::translate(&mem, &v, huge + 0x1000), Some(0x2000));
    let mut none = PhysicalMemory { hhdm: 0, pmm: None, bytes: vec![] };
    assert_eq!(layout::init(&mut none, &[]).err(), Some(VmmError::NoMemoryRange));
}

#[test]
fn address_spaces_share_the_kernel_half() {
    let (mut mem, v) = paged();
    let free = pmm::free_frame_count(&mem);
    let a = create_address_space(&mut mem, &v).unwrap();
    let b = create_address_space(&mut mem, &v).unwrap();
    let at = mem.hhdm + 0x5000;
    assert_eq!(a.translate(&mem, at), vmm::translate(&mem, &v, at));
    let p = pmm::alloc_frame(&mut mem).unwrap();
    assert_eq!(a.map(&mut mem, 0x40_0000, p, USER_RW), Ok(()));
    assert_eq!(a.translate(&mem, 0x40_0010), Some(p + 0x10));
    assert_eq!(b.translate(&mem, 0x40_0010), None);
    assert!(copy_to_user(&mut mem, a.phys(), 0x40_0000, b"hello"));
    let mut out = [0u8; 5];
    assert!(copy_from_user(&mem, a.phys(), &mut out, 0x40_0000));
    assert_eq!(&out, b"hello");
    assert!(!copy_from_user(&mem, a.phys(), &mut out, 0x40_0ffe));
    assert!(!copy_to_user(&mut mem, b.phys(), 0x40_0000, b"x"));
    free_user_half(&mut mem, a);
    free_user_half(&mut mem, b);
    assert_eq!(pmm::free_frame_count(&mem), free);
}

#[test]
fn the_trials_of_the_page_tables_pass() {
    let (mut mem, v) = paged();
    assert!(matches!(vmm::self_test(&mut mem, &v), Ok(MapTrial::Passed(_))));
    assert_eq!(vmm::self_test(&mut mem, &None), Ok(MapTrial::NotActive));
    let free = pmm::free_frame_count(&mem);
    let probe = mem.hhdm;
    let r = vmm::address_space_self_test(&mut mem, &v, probe);
    assert_eq!(r, Ok(SpaceTrial::Passed(free)));
    while pmm::free_frame_count(&mem) > 3 {
        pmm::alloc_frame(&mut mem);
    }
    let r = vmm::address_space_self_test(&mut mem, &v, probe);
    assert_eq!(r, Err(MapError::OutOfMemory));
    while pmm::free_frame_count(&mem) > 0 {
        pmm::alloc_frame(&mut mem);
    }
    let r = vmm::address_space_self_test(&mut mem, &v, probe);
    assert_eq!(r, Ok(SpaceTrial::NotCreated));
    assert_eq!(vmm::self_test(&mut mem, &v), Ok(MapTrial::NoFrame));
}

#[test]
fn the_heap_gives_and_takes() {
    let (mut mem, v) = paged();
    let mut list = FreeList::new();
    assert!(heap::growth::init(&mut list, &mut mem, &v).is_ok());
    let a = hand_out(&mut list, &mut mem, &v, 100, 8).unwrap().unwrap();
    let b = hand_out(&mut list, &mut mem, &v, 64, 64).unwrap().unwrap();
    assert_eq!(b % 64, 0);
    assert!(a + 100 <= b || b + 64 <= a);
    assert_eq!(heap::allocated_bytes(&list), 104 + 64);
    take_back(&mut list, a, heap::adjust(100, 8).0);
    take_back(&mut list, b, heap::adjust(64, 64).0);
    assert_eq!(heap::allocated_bytes(&list), 0);
    assert!(matches!(
        heap::self_test(&mut list, &mut mem, &v),
        Ok(HeapTest::Passed { .. })
    ));
}

#[test]
fn loans_and_free_blocks_make_up_the_heap() {
    let (mut mem, v) = paged();
    let mut list = FreeList::new();
    assert!(heap::growth::init(&mut list, &mut mem, &v).is_ok());
    let free = |list: &FreeList| -> u64 { list.blocks.iter().map(|b| b.size).sum() };
    let mut loans = vec![];
    for (size, align) in [(24, 8), (8, 64), (40, 16), (100, 128), (1, 1), (72, 32)] {
        loans.push((hand_out(&mut list, &mut mem, &v, size, align).unwrap().unwrap(), size));
        assert_eq!(heap::allocated_bytes(&list) + free(&list), heap::heap_size(&list));
    }
    assert_eq!(heap::heap_size(&list) % 4096, 0);
    for (at, size) in loans {
        assert!(can_take_back(&list, at, size));
        take_back(&mut list, at, size);
        assert!(!can_take_back(&list, at, size));
        assert_eq!(heap::allocated_bytes(&list) + free(&list), heap::heap_size(&list));
    }
    assert_eq!(list.blocks.len(), 1);
    assert_eq!(free(&list), heap::heap_size(&list));
    let whole = heap::heap_size(&list);
    assert_eq!(hand_out_now(&mut list, whole + 1, 8), None);
    assert_eq!(hand_out_now(&mut list, whole, 8), Some(heap::HEAP_START));
}

/// The leaf entry that maps an address.
fn leaf(mem: &PhysicalMemory, root: u64, virt: u64) -> u64 {
    let mut table = root;
    for level in (0..4).rev() {
        let at = (table + 8 * (virt >> (12 + 9 * level) & 511)) as usize;
        let e = u64::from_le_bytes(mem.bytes[at..at + 8].try_into().unwrap());
        if level == 0 || e & 0x80 != 0 {
            return e;
        }
        table = e & 0x000f_ffff_ffff_f000;
    }
    0
}

#[test]
fn registers_are_mapped_uncached() {
    let (mut mem, v) = paged();
    let root = v.as_ref().unwrap().pml4_phys;
    let at = vmm::map_mmio(&mut mem, &v, 0xfee0_0010, 0x1000).unwrap();
    assert_eq!(at, mem.hhdm + 0xfee0_0010);
    for page in [0xfee0_0000u64, 0xfee0_1000] {
        assert_eq!(leaf(&mem, root, mem.hhdm + page), page | KERNEL_UC);
    }
    let before = mem.bytes.clone();
    assert_eq!(vmm::map_mmio(&mut mem, &v, 0xfee0_0010, 0x1000), Some(at));
    assert_eq!(mem.bytes, before);
}

#[test]
fn the_kernel_image_is_protected() {
    let mut mem = memory();
    let base = 0xffff_ffff_8000_0000;
    let sections = kernel_sections(
        (base, base + 0x1000),
        (base + 0x1000, base + 0x2000),
        (base + 0x2000, base + 0x3000),
    );
    let maps = plan(&mem, None, (0x20_0000, base), &sections).unwrap();
    let v = layout::init(&mut mem, &maps).unwrap();
    for (i, flags) in [KERNEL_RX, KERNEL_RO, KERNEL_RW].into_iter().enumerate() {
        let off = 0x1000 * i as u64;
        assert_eq!(leaf(&mem, v.pml4_phys, base + off), (0x20_0000 + off) | flags);
    }
}

#[test]
fn ranges_are_merged() {
    let mut r = vec![(5, 7), (1, 3), (3, 4), (6, 9)];
    assert_eq!(merge_ranges(&mut r), 2);
    assert_eq!(&r[..2], &[(1, 4), (5, 9)]);
}

#[test]
fn executables_are_parsed() {
    let good = make_test_elf(TEST_CODE_VIRT, TEST_CODE_VIRT, 4, TEST_MEMSZ, 5);
    let (entry, segments) = elf::parse(&good).unwrap();
    assert_eq!(entry, TEST_CODE_VIRT);
    assert_eq!(segments.len(), 1);
    assert!(segments[0].executable() && !segments[0].writable());
    assert_eq!(elf::parse(&good[..20]).err(), Some(ElfError::TooShort));
    let mut bad = good.clone();
    bad[0] = 0;
    assert_eq!(elf::parse(&bad).err(), Some(ElfError::BadMagic));
    let both = make_test_elf(TEST_CODE_VIRT, TEST_CODE_VIRT, 4, TEST_MEMSZ, 7);
    assert_eq!(elf::parse(&both).err(), Some(ElfError::WritableExecutable));
    let (mut mem, v) = paged();
    assert!(matches!(
        eonos::process::self_test(&mut mem, &v),
        Ok(LoaderTrial::Passed(10))
    ));
    let free = pmm::free_frame_count(&mem);
    let a = create_address_space(&mut mem, &v).unwrap();
    assert_eq!(elf::load(&mut mem, &good, &a), Ok(Ok(TEST_CODE_VIRT)));
    assert!(a.translate(&mem, TEST_CODE_VIRT).is_some());
    free_user_half(&mut mem, a);
    assert_eq!(pmm::free_frame_count(&mem), free);
}

#[test]
fn the_kernel_sees_memory_picture_and_image() {
    let mem = memory();
    let hhdm = mem.hhdm;
    let sections = [
        Section { start: 0xffff_ffff_8000_0010, end: 0xffff_ffff_8000_1010, flags: KERNEL_RX },
        Section { start: 0xffff_ffff_8000_2000, end: 0xffff_ffff_8000_3000, flags: KERNEL_RW },
    ];
    let picture = Some(Picture { at: hhdm + 0xfd00_0800, size: 0x1000 });
    let maps = plan(&mem, picture, (0x20_0000, 0xffff_ffff_8000_0000), &sections).unwrap();
    let direct = |start: u64, end: u64| Mapping {
        base: hhdm,
        start,
        end,
        flags: KERNEL_RW,
        huge: true,
    };
    let image = |start: u64, end: u64, flags: u64| Mapping {
        base: 0xffff_ffff_7fe0_0000,
        start,
        end,
        flags,
        huge: false,
    };
    assert_eq!(
        maps,
        vec![
            direct(0, 0x9_f000),
            direct(0x10_0000, 0x30_0000),
            Mapping {
                base: hhdm,
                start: 0xfd00_0000,
                end: 0xfd00_2000,
                flags: KERNEL_WC,
                huge: false,
            },
            image(0x20_0000, 0x20_2000, KERNEL_RX),
            image(0x20_2000, 0x20_3000, KERNEL_RW),
        ]
    );
    let elsewhere = Some(Picture { at: 0x1000, size: 0x1000 });
    assert_eq!(plan(&mem, elsewhere, (0x20_0000, 0xffff_ffff_8000_0000), &sections).unwrap().len(), 4);
    assert!(plan(&mem, None, (0x20_0000, 0x1000), &sections).is_none());
    let low = [Section { start: 0x40_0000, end: 0x40_1000, flags: KERNEL_RX }];
    assert!(plan(&mem, None, (0, 0x40_0000), &low).is_none());
}

/// Leave only so many frames free.
fn drain(mem: &mut PhysicalMemory, left: usize) {
    while pmm::free_frame_count(mem) > left {
        pmm::alloc_frame(mem).unwrap();
    }
}

#[test]
fn threads_get_stacks_of_their_own() {
    let (mut mem, k) = paged();
    let v = k.unwrap();
    let mut s = Scheduler::new();
    let f0 = pmm::free_frame_count(&mem);
    let a = spawn(&mut s, &mut mem, &v, "a", 0x1111, 0x2222).unwrap().unwrap();
    let f1 = pmm::free_frame_count(&mem);
    // The stack, and the tables on the way to it.
    assert!((17..=19).contains(&(f0 - f1)));
    let b = spawn(&mut s, &mut mem, &v, "b", 0x3333, 0x2222).unwrap().unwrap();
    assert_eq!(b, a + 1);
    assert_eq!(pmm::free_frame_count(&mem), f1 - STACK_PAGES as usize);
    for slot in 0..2 {
        let base = slot_base(slot);
        assert_eq!(vmm::translate(&mem, &k, base), None);
        assert!(vmm::translate(&mem, &k, base + 4096).is_some());
        let last = vmm::translate(&mem, &k, base + STACK_PAGES * 4096).unwrap() as usize;
        let word = |n: usize| {
            let at = last + 4096 - 56 + 8 * n;
            u64::from_le_bytes(mem.bytes[at..at + 8].try_into().unwrap())
        };
        let start = if slot == 0 { 0x1111 } else { 0x3333 };
        assert_eq!([0, 1, 2, 3, 4, 5, 6].map(word), [0, 0, 0, start, 0, 0, 0x2222]);
        assert_eq!(vmm::translate(&mem, &k, base + (STACK_PAGES + 1) * 4096), None);
    }
}

#[test]
fn threads_are_refused_for_want_of_memory() {
    let (mut mem, k) = paged();
    let v = k.unwrap();
    let mut s = Scheduler::new();
    let a = spawn(&mut s, &mut mem, &v, "a", 1, 2).unwrap().unwrap();
    drain(&mut mem, 15);
    assert_eq!(spawn(&mut s, &mut mem, &v, "b", 1, 2), Ok(None));
    assert_eq!(pmm::free_frame_count(&mem), 15);
    assert_eq!(vmm::translate(&mem, &k, slot_base(1) + 4096), None);
    drain(&mut mem, 0);
    assert_eq!(spawn(&mut s, &mut mem, &v, "c", 1, 2), Ok(None));
    let dead = s.ready.pop_front().unwrap();
    assert_eq!(dead.id, a);
    free_thread(&mut s, &mut mem, &v, dead);
    assert_eq!(pmm::free_frame_count(&mem), 16);
    assert_eq!(spawn(&mut s, &mut mem, &v, "d", 1, 2), Ok(Some(a + 3)));
    assert_eq!(pmm::free_frame_count(&mem), 0);
    // No frame for the tables on the way to the first stack.
    let (mut mem, k) = paged();
    drain(&mut mem, 1);
    let mut s = Scheduler::new();
    let r = spawn(&mut s, &mut mem, &k.unwrap(), "a", 1, 2);
    assert_eq!(r, Err(MapError::OutOfMemory));
    // Nor for the idle thread.
    let (mut mem, k) = paged();
    drain(&mut mem, 0);
    let mut s = Scheduler::new();
    assert_eq!(stacks::init(&mut s, &mut mem, &k.unwrap(), 1, 2), Ok(false));
    assert!(!s.is_up);
}

#[test]
fn threads_are_refused_for_want_of_slots() {
    let map = [region(0x10_0000, 0x300_0000, Kind::Usable)];
    let p = Pmm::init(&map).unwrap();
    let len = p.total_frames * 4096;
    let mut mem =
        PhysicalMemory { hhdm: 0xffff_8000_0000_0000, pmm: Some(p), bytes: vec![0u8; len] };
    let all = Mapping { base: mem.hhdm, start: 0, end: 0x400_0000, flags: KERNEL_RW, huge: true };
    let v = layout::init(&mut mem, &[all]).unwrap();
    let mut s = Scheduler::new();
    for _ in 0..MAX_SLOTS {
        assert!(spawn(&mut s, &mut mem, &v, "x", 1, 2).unwrap().is_some());
    }
    let free = pmm::free_frame_count(&mem);
    assert!(free > 32);
    assert_eq!(stack_slots_in_use(&s), MAX_SLOTS);
    assert_eq!(spawn(&mut s, &mut mem, &v, "y", 1, 2), Ok(None));
    assert_eq!(stack_slots_in_use(&s), MAX_SLOTS);
    assert_eq!(pmm::free_frame_count(&mem), free);
    let dead = s.ready.pop_front().unwrap();
    free_thread(&mut s, &mut mem, &v, dead);
    assert_eq!(stack_slots_in_use(&s), MAX_SLOTS - 1);
    assert_eq!(pmm::free_frame_count(&mem), free + STACK_PAGES as usize);
    let id = spawn(&mut s, &mut mem, &v, "y", 1, 2).unwrap().unwrap();
    assert_eq!(id, MAX_SLOTS as u64 + 1);
}

#[test]
fn bad_images_have_their_faults() {
    let faults = [
        ElfError::TooShort,
        ElfError::BadMagic,
        ElfError::NotElf64Le,
        ElfError::WrongArch,
        ElfError::BadSegment,
        ElfError::BadSegment,
        ElfError::BadSegment,
        ElfError::Truncated,
        ElfError::WritableExecutable,
        ElfError::BadEntry,
    ];
    let good = make_test_elf(TEST_CODE_VIRT, TEST_CODE_VIRT, 4, TEST_MEMSZ, 5);
    for (case, fault) in faults.into_iter().enumerate() {
        let (image, expected) = bad_image(case);
        assert_eq!(expected, fault);
        assert_eq!(elf::parse(&image).err(), Some(fault));
        match case {
            0 => assert_eq!(image, good[..32]),
            1 => assert_eq!((image[0], &image[1..]), (0, &good[1..])),
            2 => assert_eq!((image[4], &image[5..]), (1, &good[5..])),
            3 => assert_eq!((image[18], &image[19..]), (3, &good[19..])),
            _ => assert_eq!(image.len(), 124),
        }
    }
    assert_eq!(good[7..16], [0; 9]);
    assert_eq!(good[40..52], [0; 12]);
    assert_eq!(good[58..64], [0; 6]);
}
