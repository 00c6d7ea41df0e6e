use eonos::block::{DeviceRegistry, MemoryBlockDevice};
use eonos::fat32::files::DirEntry;
use eonos::fat32::{mount_boot_volume, Fat32, FatError};
use eonos::vfs::{self, FsError, Vfs};

fn put16(b: &mut [u8], at: usize, v: u16) {
    b[at..at + 2].copy_from_slice(&v.to_le_bytes());
}

fn put32(b: &mut [u8], at: usize, v: u32) {
    b[at..at + 4].copy_from_slice(&v.to_le_bytes());
}

/// A volume of 100 clusters of one sector each, with two copies of the table.
fn image() -> Vec<u8> {
    let mut b = vec![0u8; 104 * 512];
    put16(&mut b, 11, 512);
    b[13] = 1;
    put16(&mut b, 14, 2);
    b[16] = 2;
    put32(&mut b, 32, 104);
    put32(&mut b, 36, 1);
    put32(&mut b, 44, 2);
    put16(&mut b, 48, 1);
    b[510] = 0x55;
    b[511] = 0xaa;
    for copy in 0..2 {
        let at = (2 + copy) * 512;
        put32(&mut b, at, 0x0fff_fff8);
        put32(&mut b, at + 4, 0x0fff_ffff);
        put32(&mut b, at + 8, 0x0fff_ffff);
    }
    b
}

fn shown(l: Vec<DirEntry>) -> Vec<(String, bool, u32)> {
    l.into_iter().map(|e| (e.name, e.is_dir, e.size)).collect()
}

fn entry(name: &str, is_dir: bool, size: u32) -> (String, bool, u32) {
    (name.to_string(), is_dir, size)
}

#[test]
fn a_new_file_comes_last_in_its_directory() {
    let img = image();
    let mut fs = Fat32::mount(MemoryBlockDevice::new(&img).unwrap()).unwrap();
    fs.create_dir("/d").unwrap();
    fs.create_file("/d/first").unwrap();
    fs.write_at("/d/first", 0, b"12").unwrap();
    let mut l = shown(fs.list("/d").unwrap());
    fs.create_file("/d/A rather longer name").unwrap();
    l.push(entry("A rather longer name", false, 0));
    assert_eq!(shown(fs.list("/d").unwrap()), l);
    assert_eq!(fs.read_file("/d/A rather longer name").unwrap(), vec![]);
    assert_eq!(fs.read_file("/d/first").unwrap(), b"12");
}

#[test]
fn a_new_directory_lists_nothing_and_can_go() {
    let img = image();
    let mut fs = Fat32::mount(MemoryBlockDevice::new(&img).unwrap()).unwrap();
    fs.create_file("/f").unwrap();
    let before = shown(fs.list("/").unwrap());
    fs.create_dir("/Inner").unwrap();
    let mut l = before.clone();
    l.push(entry("Inner", true, 0));
    assert_eq!(shown(fs.list("/").unwrap()), l);
    assert_eq!(shown(fs.list("/Inner").unwrap()), vec![]);
    assert_eq!(shown(fs.list("/inner/.").unwrap()), vec![]);
    fs.remove("/Inner").unwrap();
    assert_eq!(shown(fs.list("/").unwrap()), before);
    assert_eq!(fs.list("/Inner").err(), Some(FatError::NotFound));
}

#[test]
fn only_the_size_of_a_changed_file_changes() {
    let img = image();
    let mut fs = Fat32::mount(MemoryBlockDevice::new(&img).unwrap()).unwrap();
    for name in ["/one", "/two", "/three"] {
        fs.create_file(name).unwrap();
        fs.write_at(name, 0, b"abc").unwrap();
    }
    assert_eq!(fs.write_at("/two", 5, b"xy"), Ok(2));
    assert_eq!(fs.read_file("/two").unwrap(), b"abc\0\0xy");
    let l = |n| vec![entry("one", false, 3), entry("two", false, n), entry("three", false, 3)];
    assert_eq!(shown(fs.list("/").unwrap()), l(7));
    assert_eq!(fs.write_at("/two", 1, b"Z"), Ok(1));
    assert_eq!(shown(fs.list("/").unwrap()), l(7));
    assert_eq!(fs.truncate("/two"), Ok(()));
    assert_eq!(shown(fs.list("/").unwrap()), l(0));
    assert_eq!(fs.read_file("/two").unwrap(), vec![]);
    assert_eq!(fs.read_file("/three").unwrap(), b"abc");
}

#[test]
fn what_cannot_be_done_changes_nothing() {
    let img = image();
    let mut fs = Fat32::mount(MemoryBlockDevice::new(&img).unwrap()).unwrap();
    fs.create_dir("/d").unwrap();
    fs.create_file("/d/f").unwrap();
    let before = (shown(fs.list("/").unwrap()), shown(fs.list("/d").unwrap()));
    assert_eq!(fs.remove("/d"), Err(FatError::DirectoryNotEmpty));
    assert_eq!(fs.truncate("/d"), Err(FatError::IsDirectory));
    assert_eq!(fs.write_at("/d", 0, b"x"), Err(FatError::IsDirectory));
    assert_eq!(fs.create_dir("/D/F"), Err(FatError::AlreadyExists));
    assert_eq!(fs.create_file("/D/F"), Ok(()));
    assert_eq!(fs.remove("/d/g"), Err(FatError::NotFound));
    assert_eq!(fs.truncate("/d/g"), Err(FatError::NotFound));
    assert_eq!(fs.write_at("/d/g", 0, b"x"), Err(FatError::NotFound));
    assert_eq!((shown(fs.list("/").unwrap()), shown(fs.list("/d").unwrap())), before);
}

#[test]
fn the_size_is_where_reads_end() {
    let img = image();
    let mut registry: DeviceRegistry<u64> = DeviceRegistry::new();
    let mut v: Vfs<MemoryBlockDevice> = vfs::init(None);
    mount_boot_volume(&mut v, &mut registry, Some(&img)).unwrap();
    vfs::files::create_dir(&mut v, "/disk/d").unwrap();
    vfs::files::create_file(&mut v, "/disk/d/f").unwrap();
    let text: Vec<u8> = (0..900u32).map(|i| (i % 241) as u8).collect();
    vfs::files::write_at(&mut v, "/disk/d/f", 0, &text).unwrap();
    let n = vfs::files::file_size(&v, "/disk/d/f").unwrap();
    assert_eq!(n, 900);
    let mut out = [9u8; 4];
    assert_eq!(vfs::files::read_at(&v, "/disk/d/f", n, &mut out), Ok(0));
    assert_eq!(out, [9; 4]);
    assert_eq!(vfs::files::read_at(&v, "/disk/d/f", n - 1, &mut out), Ok(1));
    assert_eq!(out, [text[899], 9, 9, 9]);
    // Paths that come to the same are one file.
    let mut again = [9u8; 4];
    assert_eq!(vfs::files::read_at(&v, "//disk/./d/../d/f", n - 1, &mut again), Ok(1));
    assert_eq!(again, out);
    assert_eq!(vfs::files::read_all(&v, "/disk//d/f").unwrap(), text);
    assert_eq!(vfs::files::file_size(&v, "/disk/d"), Err(FsError::IsDirectory));
    assert_eq!(vfs::files::read_at(&v, "/disk/d", 0, &mut out), Err(FsError::IsDirectory));
    assert_eq!(vfs::files::read_all(&v, "/disk/d").err(), Some(FsError::IsDirectory));
    assert_eq!(vfs::files::read_all(&v, "/../disk").err(), Some(FsError::InvalidPath));
    assert_eq!(vfs::files::file_size(&v, "/../disk"), Err(FsError::InvalidPath));
    assert_eq!(vfs::files::read_all(&v, "/missing").err(), Some(FsError::NotFound));
}
