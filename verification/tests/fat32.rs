use eonos::block::{BlockDevice, BlockError, DeviceRegistry, MemoryBlockDevice, PartitionDevice};
use eonos::block::{devices, register_device};
use eonos::fat32::boot::BootVolumeFault;
use eonos::fat32::{mount_boot_volume, Fat32, FatError};
use eonos::vfs::{self, FsError, Vfs};

fn put16(b: &mut [u8], at: usize, v: u16) {
    b[at..at + 2].copy_from_slice(&v.to_le_bytes());
}

fn put32(b: &mut [u8], at: usize, v: u32) {
    b[at..at + 4].copy_from_slice(&v.to_le_bytes());
}

/// A volume of 100 clusters of one sector each, with two copies of the table.
fn image() -> Vec<u8> {
    let mut b = vec![0u8; 104 * 512];
    put16(&mut b, 11, 512);
    b[13] = 1;
    put16(&mut b, 14, 2);
    b[16] = 2;
    put32(&mut b, 32, 104);
    put32(&mut b, 36, 1);
    put32(&mut b, 44, 2);
    put16(&mut b, 48, 1);
    b[510] = 0x55;
    b[511] = 0xaa;
    put32(&mut b, 512, 0x4161_5252);
    put32(&mut b, 512 + 484, 0x6141_7272);
    put32(&mut b, 512 + 488, 97);
    put32(&mut b, 512 + 492, 3);
    put32(&mut b, 512 + 508, 0xaa55_0000);
    for copy in 0..2 {
        let at = (2 + copy) * 512;
        put32(&mut b, at, 0x0fff_fff8);
        put32(&mut b, at + 4, 0x0fff_ffff);
        put32(&mut b, at + 8, 0x0fff_ffff);
    }
    b
}

fn names(fs: &Fat32<MemoryBlockDevice>, path: &str) -> Vec<String> {
    fs.list(path).unwrap().into_iter().map(|e| e.name).collect()
}

#[test]
fn mounts_only_a_sound_volume() {
    let good = image();
    assert!(Fat32::mount(MemoryBlockDevice::new(&good).unwrap()).is_ok());
    let mut no_mark = image();
    no_mark[510] = 0;
    let r = Fat32::mount(MemoryBlockDevice::new(&no_mark).unwrap());
    assert_eq!(r.err(), Some(FatError::InvalidBootSector));
    let mut big_sectors = image();
    put16(&mut big_sectors, 11, 1024);
    let r = Fat32::mount(MemoryBlockDevice::new(&big_sectors).unwrap());
    assert_eq!(r.err(), Some(FatError::Unsupported));
    let mut bad_root = image();
    put32(&mut bad_root, 44, 1);
    let r = Fat32::mount(MemoryBlockDevice::new(&bad_root).unwrap());
    assert_eq!(r.err(), Some(FatError::InvalidBootSector));
}

#[test]
fn what_is_written_is_read_back() {
    let img = image();
    let mut fs = Fat32::mount(MemoryBlockDevice::new(&img).unwrap()).unwrap();
    fs.create_file("/hello.txt").unwrap();
    let text: Vec<u8> = (0..1500u32).map(|i| (i % 251) as u8).collect();
    assert_eq!(fs.write_at("/hello.txt", 0, &text), Ok(1500));
    assert_eq!(fs.read_file("/hello.txt").unwrap(), text);
    assert_eq!(fs.stat("/HELLO.TXT").unwrap().size, 1500);
    let mut part = [0u8; 8];
    assert_eq!(fs.read_at("/hello.txt", 1496, &mut part), Ok(4));
    assert_eq!(&part[..4], &text[1496..]);
    assert_eq!(fs.read_at("/hello.txt", 1500, &mut part), Ok(0));
}

#[test]
fn a_gap_is_filled_with_zeros() {
    let img = image();
    let mut fs = Fat32::mount(MemoryBlockDevice::new(&img).unwrap()).unwrap();
    fs.create_file("/f").unwrap();
    fs.write_at("/f", 0, b"abc").unwrap();
    fs.write_at("/f", 600, b"xyz").unwrap();
    let all = fs.read_file("/f").unwrap();
    assert_eq!(all.len(), 603);
    assert_eq!(&all[..3], b"abc");
    assert!(all[3..600].iter().all(|&b| b == 0));
    assert_eq!(&all[600..], b"xyz");
}

#[test]
fn files_come_and_go() {
    let img = image();
    let mut fs = Fat32::mount(MemoryBlockDevice::new(&img).unwrap()).unwrap();
    fs.create_file("/A long file name.text").unwrap();
    fs.create_dir("/sub").unwrap();
    fs.create_file("/sub/inner").unwrap();
    assert_eq!(names(&fs, "/"), vec!["A long file name.text", "sub"]);
    assert_eq!(names(&fs, "/sub"), vec!["inner"]);
    assert!(fs.stat("/a LONG file NAME.text").is_ok());
    assert_eq!(fs.stat("/sub/..").err(), Some(FatError::NotFound));
    assert_eq!(fs.create_dir("/sub"), Err(FatError::AlreadyExists));
    assert_eq!(fs.create_file("/sub"), Err(FatError::IsDirectory));
    assert_eq!(fs.remove("/sub"), Err(FatError::DirectoryNotEmpty));
    assert_eq!(fs.remove("/sub/inner"), Ok(()));
    assert_eq!(fs.remove("/sub/inner"), Err(FatError::NotFound));
    assert_eq!(fs.remove("/sub"), Ok(()));
    assert_eq!(names(&fs, "/"), vec!["A long file name.text"]);
    assert_eq!(fs.stat("/sub").err(), Some(FatError::NotFound));
    assert_eq!(fs.read_file("/").err(), Some(FatError::IsDirectory));
    assert_eq!(fs.list("/A long file name.text").err(), Some(FatError::NotDirectory));
    assert_eq!(fs.create_file("/bad?name"), Err(FatError::InvalidName));
}

#[test]
fn truncating_gives_the_clusters_back() {
    let img = image();
    let mut fs = Fat32::mount(MemoryBlockDevice::new(&img).unwrap()).unwrap();
    fs.create_file("/big").unwrap();
    let all = vec![7u8; 90 * 512];
    for _ in 0..5 {
        assert_eq!(fs.write_at("/big", 0, &all), Ok(all.len()));
        assert_eq!(fs.truncate("/big"), Ok(()));
        assert_eq!(fs.read_file("/big").unwrap().len(), 0);
    }
    let too_much = vec![7u8; 100 * 512];
    assert_eq!(fs.write_at("/big", 0, &too_much), Err(FatError::NoSpace));
    assert_eq!(fs.read_file("/big").unwrap().len(), 0);
    assert_eq!(fs.truncate("/none"), Err(FatError::NotFound));
}

#[test]
fn all_copies_of_the_table_stay_the_same() {
    let img = image();
    let mut fs = Fat32::mount(MemoryBlockDevice::new(&img).unwrap()).unwrap();
    fs.create_file("/one").unwrap();
    fs.write_at("/one", 0, &[1u8; 2000]).unwrap();
    fs.create_dir("/two").unwrap();
    fs.remove("/one").unwrap();
    let mut a = [0u8; 512];
    let mut b = [0u8; 512];
    fs.device.read_sector(2, &mut a).unwrap();
    fs.device.read_sector(3, &mut b).unwrap();
    assert_eq!(a, b);
    assert_ne!(&a[..], &img[2 * 512..3 * 512]);
    let mut info = [0u8; 512];
    fs.device.read_sector(1, &mut info).unwrap();
    assert_eq!(&info[488..496], &[0xff; 8]);
}

#[test]
fn names_that_clash_get_other_short_names() {
    let img = image();
    let mut fs = Fat32::mount(MemoryBlockDevice::new(&img).unwrap()).unwrap();
    for i in 0..3 {
        fs.create_file(&format!("/longfilename{}.txt", i)).unwrap();
    }
    assert_eq!(
        names(&fs, "/"),
        vec!["longfilename0.txt", "longfilename1.txt", "longfilename2.txt"]
    );
    fs.write_at("/longfilename1.txt", 0, b"one").unwrap();
    assert_eq!(fs.read_file("/longfilename0.txt").unwrap().len(), 0);
    assert_eq!(fs.read_file("/longfilename1.txt").unwrap(), b"one");
}

#[test]
fn the_image_stays_as_it_was_loaded() {
    let img = image();
    let copy = img.clone();
    {
        let mut fs = Fat32::mount(MemoryBlockDevice::new(&img).unwrap()).unwrap();
        fs.create_file("/x").unwrap();
        fs.write_at("/x", 0, b"data").unwrap();
    }
    assert_eq!(img, copy);
    let fs = Fat32::mount(MemoryBlockDevice::new(&img).unwrap()).unwrap();
    assert!(fs.list("/").unwrap().is_empty());
}

#[test]
fn devices_keep_to_their_sectors() {
    let bytes = image();
    assert!(MemoryBlockDevice::new(&bytes[..100]).is_none());
    assert!(MemoryBlockDevice::new(&bytes[..600]).is_none());
    let mut d = MemoryBlockDevice::new(&bytes).unwrap();
    let mut out = [0u8; 512];
    assert_eq!(d.sector_count(), 104);
    assert_eq!(d.read_sector(104, &mut out), Err(BlockError::OutOfRange));
    assert_eq!(d.write_sector(5, &[9u8; 512]), Ok(()));
    assert_eq!(d.read_sector(5, &mut out), Ok(()));
    assert_eq!(out, [9u8; 512]);
    let mut p = PartitionDevice::new(d, 4, 10).unwrap();
    assert_eq!(p.sector_count(), 10);
    assert_eq!(p.read_sector(1, &mut out), Ok(()));
    assert_eq!(out, [9u8; 512]);
    assert_eq!(p.read_sector(10, &mut out), Err(BlockError::OutOfRange));
    assert_eq!(p.write_sector(10, &out), Err(BlockError::OutOfRange));
    let d = MemoryBlockDevice::new(&bytes).unwrap();
    assert!(PartitionDevice::new(d, 100, 10).is_none());
}

#[test]
fn a_device_name_is_taken_once() {
    let mut registry: DeviceRegistry<u64> = DeviceRegistry::new();
    register_device(&mut registry, "sda", 1);
    register_device(&mut registry, "sda", 2);
    register_device(&mut registry, "sdb", 3);
    let all: Vec<(&str, u64)> = devices(&registry).iter().map(|e| (e.name, e.device)).collect();
    assert_eq!(all, vec![("sda", 1), ("sdb", 3)]);
}

#[test]
fn the_boot_volume_is_mounted_at_disk() {
    let img = image();
    let mut registry: DeviceRegistry<u64> = DeviceRegistry::new();
    let mut v: Vfs<MemoryBlockDevice> = vfs::init(None);
    let r = mount_boot_volume(&mut v, &mut registry, None);
    assert_eq!(r, Err(BootVolumeFault::Missing));
    let r = mount_boot_volume(&mut v, &mut registry, Some(&img[..700]));
    assert_eq!(r, Err(BootVolumeFault::BadSize));
    let junk = vec![0u8; 1024];
    let r = mount_boot_volume(&mut v, &mut registry, Some(&junk));
    assert_eq!(r, Err(BootVolumeFault::NotMounted(FsError::Io)));
    let mut registry: DeviceRegistry<u64> = DeviceRegistry::new();
    assert_eq!(mount_boot_volume(&mut v, &mut registry, Some(&img)), Ok(104));
    assert_eq!(devices(&registry)[0].device, 104);
    let r = mount_boot_volume(&mut v, &mut registry, Some(&img));
    assert_eq!(r, Err(BootVolumeFault::NotMounted(FsError::InvalidPath)));
    vfs::files::create_file(&mut v, "/disk/./a/../note").unwrap();
    assert_eq!(vfs::files::write_at(&mut v, "/disk/note", 0, b"hi"), Ok(2));
    assert_eq!(vfs::files::read_all(&v, "/disk//note").unwrap(), b"hi");
    assert_eq!(vfs::files::file_size(&v, "/disk/note"), Ok(2));
    assert_eq!(vfs::files::create_file(&mut v, "/elsewhere"), Err(FsError::ReadOnly));
    assert_eq!(vfs::files::create_dir(&mut v, "/elsewhere"), Err(FsError::ReadOnly));
    assert_eq!(vfs::files::remove(&mut v, "/elsewhere"), Err(FsError::ReadOnly));
    assert_eq!(vfs::files::truncate(&mut v, "/elsewhere"), Err(FsError::ReadOnly));
    assert_eq!(vfs::files::write_at(&mut v, "/elsewhere", 0, b"x"), Err(FsError::ReadOnly));
    assert_eq!(vfs::files::read_all(&v, "/disk/none").err(), Some(FsError::NotFound));
    assert_eq!(vfs::normalize("/..").err(), Some(FsError::InvalidPath));
    let shown = vfs::listing::list_files(&v);
    assert!(shown.iter().any(|n| n == "disk/note" || n == "/disk/note"));
}

#[test]
fn removing_one_leaves_the_others_in_order() {
    let img = image();
    let mut fs = Fat32::mount(MemoryBlockDevice::new(&img).unwrap()).unwrap();
    let all: Vec<String> = (0..4).map(|i| format!("a rather long name {}.txt", i)).collect();
    for n in &all {
        fs.create_file(&format!("/{}", n)).unwrap();
        fs.write_at(&format!("/{}", n), 0, n.as_bytes()).unwrap();
    }
    fs.create_dir("/empty").unwrap();
    assert_eq!(names(&fs, "/empty").len(), 0);
    assert_eq!(fs.remove(&format!("/{}", all[1])), Ok(()));
    assert_eq!(
        names(&fs, "/"),
        vec![all[0].as_str(), all[2].as_str(), all[3].as_str(), "empty"]
    );
    for i in [0usize, 2, 3] {
        assert_eq!(fs.read_file(&format!("/{}", all[i])).unwrap(), all[i].as_bytes());
    }
    assert_eq!(fs.read_file(&format!("/{}", all[1])).err(), Some(FatError::NotFound));
    assert_eq!(fs.remove("/empty"), Ok(()));
    fs.create_file(&format!("/{}", all[1])).unwrap();
    assert_eq!(fs.read_file(&format!("/{}", all[1])).unwrap().len(), 0);
    assert_eq!(
        names(&fs, "/"),
        vec![all[0].as_str(), all[2].as_str(), all[3].as_str(), all[1].as_str()]
    );
}

#[test]
fn a_write_is_refused_before_anything_is_touched() {
    let img = image();
    let mut fs = Fat32::mount(MemoryBlockDevice::new(&img).unwrap()).unwrap();
    fs.create_file("/f").unwrap();
    fs.write_at("/f", 0, b"kept").unwrap();
    assert_eq!(fs.write_at("/f", 2, b""), Ok(0));
    assert_eq!(fs.write_at("/none", 0, b""), Ok(0));
    assert_eq!(fs.write_at("/f", 0xffff_ffff, b"x"), Err(FatError::TooLarge));
    assert_eq!(fs.write_at("/none", 0xffff_ffff, b"x"), Err(FatError::TooLarge));
    assert_eq!(fs.write_at("/none", 0, b"x"), Err(FatError::NotFound));
    fs.create_dir("/d").unwrap();
    assert_eq!(fs.write_at("/d", 0, b"x"), Err(FatError::IsDirectory));
    assert_eq!(fs.write_at("/", 0, b"x"), Err(FatError::InvalidName));
    assert_eq!(fs.read_file("/f").unwrap(), b"kept");
}

#[test]
fn mounts_show_in_their_parent_only() {
    let img = image();
    let mut v: Vfs<MemoryBlockDevice> = vfs::init(None);
    let device = || MemoryBlockDevice::new(&img).unwrap();
    vfs::mount_fat32(&mut v, "/abcd", device()).unwrap();
    vfs::mount_fat32(&mut v, "/mnt", device()).unwrap();
    vfs::files::create_dir(&mut v, "/mnt/abc").unwrap();
    vfs::mount_fat32(&mut v, "/mnt/abcd", device()).unwrap();
    let shown = |path: &str| -> Vec<(String, bool)> {
        vfs::listing::list(&v, path).unwrap().into_iter().map(|e| (e.name, e.is_dir)).collect()
    };
    let dir = |name: &str| (name.to_string(), true);
    assert_eq!(shown("/"), vec![dir("abcd"), dir("mnt")]);
    assert_eq!(shown("/mnt"), vec![dir("abc"), dir("abcd")]);
    assert_eq!(shown("/mnt/abc"), vec![]);
}

#[test]
fn the_root_shows_the_boot_volume() {
    let img = image();
    let mut registry: DeviceRegistry<u64> = DeviceRegistry::new();
    let mut v: Vfs<MemoryBlockDevice> = vfs::init(None);
    mount_boot_volume(&mut v, &mut registry, Some(&img)).unwrap();
    let l = vfs::listing::list(&v, "/").unwrap();
    assert!(l.iter().any(|e| e.name == "disk" && e.is_dir && e.size == 0));
}

#[test]
fn what_a_name_is_is_what_the_listing_says() {
    let img = image();
    let mut fs = Fat32::mount(MemoryBlockDevice::new(&img).unwrap()).unwrap();
    fs.create_dir("/Sub").unwrap();
    fs.create_file("/Sub/One").unwrap();
    fs.write_at("/Sub/One", 0, b"12345").unwrap();
    for e in fs.list("/Sub").unwrap() {
        let s = fs.stat(&format!("/Sub/{}", e.name.to_uppercase())).unwrap();
        assert_eq!((s.name, s.is_dir, s.size), (e.name, e.is_dir, e.size));
    }
    assert_eq!(fs.stat("/Sub/two").err(), Some(FatError::NotFound));
    let root = fs.stat("/").unwrap();
    assert_eq!((root.name.as_str(), root.is_dir, root.size), ("/", true, 0));
}

#[test]
fn a_full_volume_stays_as_it_was() {
    let img = image();
    let mut fs = Fat32::mount(MemoryBlockDevice::new(&img).unwrap()).unwrap();
    fs.create_file("/f").unwrap();
    let some = vec![3u8; 600];
    fs.write_at("/f", 0, &some).unwrap();
    let much = vec![4u8; 99 * 512];
    assert_eq!(fs.write_at("/f", 100, &much), Err(FatError::NoSpace));
    assert_eq!(fs.stat("/f").unwrap().size, 600);
    assert_eq!(fs.read_file("/f").unwrap(), some);
    // All are free but two of the file, one of the root and one for each name in it.
    fs.create_file("/rest").unwrap();
    assert_eq!(fs.write_at("/rest", 0, &vec![5u8; 96 * 512]), Err(FatError::NoSpace));
    assert_eq!(fs.write_at("/rest", 0, &vec![5u8; 95 * 512]), Ok(95 * 512));
}

#[test]
fn creating_and_removing_leaves_nothing() {
    let img = image();
    let mut fs = Fat32::mount(MemoryBlockDevice::new(&img).unwrap()).unwrap();
    fs.create_file("/kept").unwrap();
    fs.write_at("/kept", 0, b"abc").unwrap();
    fs.create_file("/gone").unwrap();
    fs.remove("/gone").unwrap();
    assert_eq!(fs.stat("/gone").err(), Some(FatError::NotFound));
    assert_eq!(names(&fs, "/"), vec!["kept"]);
    assert_eq!(fs.create_file("/kept"), Ok(()));
    assert_eq!(fs.read_file("/kept").unwrap(), b"abc");
    assert_eq!(fs.create_dir("/KEPT"), Err(FatError::AlreadyExists));
}

#[test]
fn a_read_that_fails_leaves_the_buffer() {
    let img = image();
    let mut registry: DeviceRegistry<u64> = DeviceRegistry::new();
    let mut v: Vfs<MemoryBlockDevice> = vfs::init(None);
    mount_boot_volume(&mut v, &mut registry, Some(&img)).unwrap();
    let mut out = [7u8; 16];
    assert_eq!(vfs::files::read_at(&v, "/../x", 0, &mut out), Err(FsError::InvalidPath));
    assert_eq!(vfs::files::read_at(&v, "/disk/none", 0, &mut out), Err(FsError::NotFound));
    assert_eq!(vfs::files::read_at(&v, "/none", 0, &mut out), Err(FsError::NotFound));
    assert_eq!(out, [7u8; 16]);
    vfs::files::create_file(&mut v, "/disk/f").unwrap();
    let text: Vec<u8> = (0..1200u32).map(|i| (i % 251) as u8).collect();
    vfs::files::write_at(&mut v, "/disk/f", 0, &text).unwrap();
    let mut pieces = vec![];
    for at in [0usize, 500, 1000] {
        let mut piece = [0u8; 500];
        let n = vfs::files::read_at(&v, "/disk/f", at, &mut piece).unwrap();
        pieces.extend_from_slice(&piece[..n]);
    }
    assert_eq!(pieces, vfs::files::read_all(&v, "/disk/f").unwrap());
}
