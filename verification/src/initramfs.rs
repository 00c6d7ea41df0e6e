//! The initial RAM filesystem: a plain `ustar` tar archive that the bootloader
//! puts in memory.
//!
//! The archive is never copied or unpacked: a file is a slice of it. Regular
//! files are supported, with names up to 100 bytes plus an optional prefix.
//! Directories, links and extension headers are skipped. Paths are compared
//! without leading `./` or `/`.

use vstd::prelude::*;
use vstd::slice::slice_subrange;
use crate::text::{chars_of, lossy, piece, push_text, same_chars, string_of, utf8_lossy};
use crate::pmm::PhysicalMemory;
use crate::vmm::{is_kernel_space, kernel_walked, translate, Vmm};

pub mod archive;

verus! {

pub const BLOCK: usize = 512;

/// Where a field ends: at its first zero byte, from `i` on.
pub open spec fn field_end(f: Seq<u8>, i: int) -> int
    decreases f.len() - i,
{
    if i < 0 || i >= f.len() || f[i] == 0 {
        i
    } else {
        field_end(f, i + 1)
    }
}

/// A field without what follows its first zero byte.
pub open spec fn until_nul(f: Seq<u8>) -> Seq<u8> {
    f.take(field_end(f, 0))
}

proof fn lemma_field_end(f: Seq<u8>, i: int)
    requires
        0 <= i <= f.len(),
    ensures
        i <= field_end(f, i) <= f.len(),
    decreases f.len() - i,
{
    if i < f.len() && f[i] != 0 {
        lemma_field_end(f, i + 1);
    }
}

/// A field without what follows its first zero byte.
pub fn cstr(field: &[u8]) -> (r: &[u8])
    ensures
        r@ == until_nul(field@),
{
    let n: usize = field.len();
    let mut i: usize = 0;
    while i < n && field[i] != 0
        invariant
            i <= n,
            n == field@.len(),
            field_end(field@, 0) == field_end(field@, i as int),
        decreases n - i,
    {
        i += 1;
    }
    let r: &[u8] = slice_subrange(field, 0, i);
    assert(r@ =~= until_nul(field@));
    r
}

/// The number in a field, from byte `i` on, with the digits before it: octal
/// digits, after leading spaces or zero bytes, up to a space or a zero byte.
pub open spec fn octal_from(f: Seq<u8>, i: int, value: int, seen: bool) -> Option<int>
    decreases f.len() - i,
{
    if i < 0 || i >= f.len() {
        if seen {
            Some(value)
        } else {
            None
        }
    } else if 0x30 <= f[i] <= 0x37 {
        if value * 8 + (f[i] - 0x30) > u64::MAX {
            None
        } else {
            octal_from(f, i + 1, value * 8 + (f[i] - 0x30), true)
        }
    } else if f[i] == 0x20 || f[i] == 0 {
        if seen {
            Some(value)
        } else {
            octal_from(f, i + 1, value, seen)
        }
    } else {
        None
    }
}

/// The number in a field, where it holds one that fits in 64 bits.
pub open spec fn octal(f: Seq<u8>) -> Option<int> {
    octal_from(f, 0, 0, false)
}

pub fn parse_octal(field: &[u8]) -> (r: Option<u64>)
    ensures
        match r {
            Some(v) => octal(field@) == Some(v as int),
            None => octal(field@) is None,
        },
{
    let n: usize = field.len();
    let mut value: u64 = 0;
    let mut seen: bool = false;
    let mut i: usize = 0;
    while i < n
        invariant
            i <= n,
            n == field@.len(),
            octal(field@) == octal_from(field@, i as int, value as int, seen),
        decreases n - i,
    {
        let b: u8 = field[i];
        if 0x30 <= b && b <= 0x37 {
            match value.checked_mul(8) {
                Some(v) => match v.checked_add((b - 0x30) as u64) {
                    Some(w) => {
                        value = w;
                    },
                    None => {
                        return None;
                    },
                },
                None => {
                    return None;
                },
            }
            seen = true;
        } else if b == 0x20 || b == 0 {
            if seen {
                return Some(value);
            }
        } else {
            return None;
        }
        i += 1;
    }
    if seen {
        Some(value)
    } else {
        None
    }
}

/// The sum of the first `n` bytes of a header, with the checksum field counted
/// as spaces.
pub open spec fn header_sum(h: Seq<u8>, n: int) -> int
    decreases n,
{
    if n <= 0 {
        0
    } else {
        header_sum(h, n - 1) + if 148 <= n - 1 < 156 {
            0x20int
        } else {
            h[n - 1] as int
        }
    }
}

/// Whether a header's checksum is right.
pub open spec fn is_sound_header(h: Seq<u8>) -> bool {
    octal(h.subrange(148, 156)) == Some(header_sum(h, 512))
}

fn checksum_ok(hdr: &[u8]) -> (r: bool)
    requires
        hdr@.len() == 512,
    ensures
        r == is_sound_header(hdr@),
{
    let mut sum: u64 = 0;
    let mut i: usize = 0;
    while i < 512
        invariant
            i <= 512,
            hdr@.len() == 512,
            sum == header_sum(hdr@, i as int),
            sum <= i * 255,
        decreases 512 - i,
    {
        sum = sum + if 148 <= i && i < 156 {
            0x20
        } else {
            hdr[i] as u64
        };
        i += 1;
    }
    parse_octal(slice_subrange(hdr, 148, 156)) == Some(sum)
}

/// A path without any leading `./` and `/`.
pub open spec fn normal(s: Seq<char>) -> Seq<char>
    decreases s.len(),
{
    if s.len() >= 2 && s[0] == '.' && s[1] == '/' {
        normal(s.skip(2))
    } else if s.len() >= 1 && s[0] == '/' {
        normal(s.skip(1))
    } else {
        s
    }
}

pub fn normalize(s: &[char]) -> (r: Vec<char>)
    ensures
        r@ == normal(s@),
{
    let n: usize = s.len();
    let mut i: usize = 0;
    assert(s@.skip(0) =~= s@);
    loop
        invariant
            i <= n,
            n == s@.len(),
            normal(s@.skip(i as int)) == normal(s@),
        decreases n - i,
    {
        if n - i >= 2 && s[i] == '.' && s[i + 1] == '/' {
            proof {
                assert(s@.skip(i as int).skip(2) =~= s@.skip(i + 2));
            }
            i += 2;
        } else if n - i >= 1 && s[i] == '/' {
            proof {
                assert(s@.skip(i as int).skip(1) =~= s@.skip(i + 1));
            }
            i += 1;
        } else {
            assert(s@.skip(i as int) =~= s@.subrange(i as int, n as int));
            return piece(s, i, n);
        }
    }
}

/// Leading `/` and `./` do not matter: the paths `/init`, `init` and `./init`
/// are the same.
pub proof fn law_leading_slashes_do_not_matter(s: Seq<char>)
    ensures
        normal(seq!['/'] + s) == normal(s),
        normal(seq!['.', '/'] + s) == normal(s),
        normal(normal(s)) == normal(s),
    decreases s.len(),
{
    assert((seq!['/'] + s).skip(1) =~= s);
    assert((seq!['.', '/'] + s).skip(2) =~= s);
    if s.len() >= 2 && s[0] == '.' && s[1] == '/' {
        law_leading_slashes_do_not_matter(s.skip(2));
    } else if s.len() >= 1 && s[0] == '/' {
        law_leading_slashes_do_not_matter(s.skip(1));
    }
}

/// Whether a header is in ustar format.
pub open spec fn is_ustar(h: Seq<u8>) -> bool {
    h[257] == 0x75 && h[258] == 0x73 && h[259] == 0x74 && h[260] == 0x61 && h[261] == 0x72
}

/// The path in a header: its name, after the prefix that a ustar header may
/// have.
pub open spec fn path_of(h: Seq<u8>) -> Seq<char> {
    let name = utf8_lossy(until_nul(h.subrange(0, 100)));
    let prefix = until_nul(h.subrange(345, 500));
    normal(
        if is_ustar(h) && prefix.len() > 0 {
            utf8_lossy(prefix).push('/') + name
        } else {
            name
        },
    )
}

fn entry_name(hdr: &[u8]) -> (r: String)
    requires
        hdr@.len() == 512,
    ensures
        r@ == path_of(hdr@),
{
    let name: &[u8] = cstr(slice_subrange(hdr, 0, 100));
    let ustar: bool = hdr[257] == 0x75 && hdr[258] == 0x73 && hdr[259] == 0x74 && hdr[260] == 0x61
        && hdr[261] == 0x72;
    let prefix: &[u8] = cstr(slice_subrange(hdr, 345, 500));
    let mut full: String = String::new();
    if ustar && prefix.len() > 0 {
        push_text(&mut full, lossy(prefix).as_str());
        full.push('/');
    }
    push_text(&mut full, lossy(name).as_str());
    let chars: Vec<char> = chars_of(full.as_str());
    proof {
        let p = until_nul(hdr@.subrange(345, 500));
        let n = utf8_lossy(until_nul(hdr@.subrange(0, 100)));
        if is_ustar(hdr@) && p.len() > 0 {
            assert(full@ =~= utf8_lossy(p).push('/') + n);
        } else {
            assert(full@ =~= n);
        }
    }
    let normal_name: Vec<char> = normalize(chars.as_slice());
    string_of(normal_name.as_slice())
}

/// Whether a block is all zeros.
pub open spec fn is_zero_block(h: Seq<u8>) -> bool {
    forall|i: int| 0 <= i < h.len() ==> h[i] == 0
}

/// The header at an offset of an archive, with the size of what follows it,
/// unless the archive ends there.
pub open spec fn header_at(a: Seq<u8>, off: int) -> Option<(Seq<u8>, int)> {
    let h = a.subrange(off, off + 512);
    if off + 512 > a.len() || is_zero_block(h) || !is_sound_header(h) {
        None
    } else {
        match octal(h.subrange(124, 136)) {
            Some(size) => if off + 512 + size > a.len() {
                None
            } else {
                Some((h, size))
            },
            None => None,
        }
    }
}

/// Where the header after the one at `off` stands: file data is padded up to
/// whole blocks.
pub open spec fn next_header(off: int, size: int) -> int {
    off + 512 + (size + 511) / 512 * 512
}

/// Whether a header is that of a regular file.
pub open spec fn is_file(h: Seq<u8>) -> bool {
    h[156] == 0x30 || h[156] == 0
}

/// The regular files from an offset on: their paths and contents, in order.
pub open spec fn files_from(a: Seq<u8>, off: int) -> Seq<(Seq<char>, Seq<u8>)>
    decreases a.len() + 512 - off,
{
    if off < 0 || off > a.len() {
        Seq::empty()
    } else {
        match header_at(a, off) {
            None => Seq::empty(),
            Some((h, size)) => if size < 0 {
                Seq::empty()
            } else {
                let rest = files_from(a, next_header(off, size));
                if is_file(h) {
                    seq![(path_of(h), a.subrange(off + 512, off + 512 + size))] + rest
                } else {
                    rest
                }
            },
        }
    }
}

/// The regular files of an archive.
pub open spec fn files(a: Seq<u8>) -> Seq<(Seq<char>, Seq<u8>)> {
    files_from(a, 0)
}

/// One regular file in the archive.
#[derive(Debug)]
pub struct Entry<'a> {
    /// Path without leading `./` or `/`.
    pub name: String,
    pub data: &'a [u8],
}

/// A walk through an archive.
#[derive(Debug)]
pub struct Entries<'a> {
    pub data: &'a [u8],
    pub off: usize,
}

impl<'a> Entries<'a> {
    /// The files still to come.
    pub open spec fn rest(self) -> Seq<(Seq<char>, Seq<u8>)> {
        files_from(self.data@, self.off as int)
    }

    /// The next regular file.
    pub fn next(&mut self) -> (r: Option<Entry<'a>>)
        ensures
            final(self).data == old(self).data,
            match r {
                None => old(self).rest().len() == 0,
                Some(e) => {
                    &&& old(self).rest().len() > 0
                    &&& e.name@ == old(self).rest()[0].0
                    &&& e.data@ == old(self).rest()[0].1
                    &&& final(self).rest() == old(self).rest().drop_first()
                    &&& final(self).off > old(self).off
                    &&& final(self).off <= final(self).data@.len()
                },
            },
    {
        let data: &'a [u8] = self.data;
        let len: usize = data.len();
        loop
            invariant
                data == self.data,
                data == old(self).data,
                len == data@.len(),
                self.rest() == old(self).rest(),
                self.off >= old(self).off,
            decreases len - self.off,
        {
            let off: usize = self.off;
            if off > len || len - off < BLOCK {
                return None;
            }
            let hdr: &[u8] = slice_subrange(data, off, off + BLOCK);
            let ghost h = data@.subrange(off as int, off + 512);
            assert(hdr@ == h);
            if all_zero(hdr) || !checksum_ok(hdr) {
                return None;
            }
            let size: u64 = match parse_octal(slice_subrange(hdr, 124, 136)) {
                Some(s) => s,
                None => {
                    return None;
                },
            };
            let start: usize = off + BLOCK;
            if size > (len - start) as u64 {
                return None;
            }
            let end: usize = start + size as usize;
            let pad: usize = (BLOCK - (size % 512) as usize) % BLOCK;
            self.off = if len - end < pad {
                len
            } else {
                end + pad
            };
            proof {
                lemma_padding(size as int, pad as int);
                assert(header_at(data@, off as int) == Some((h, size as int)));
                if len - end < pad {
                    assert(files_from(data@, len as int) =~= Seq::empty());
                    assert(files_from(data@, next_header(off as int, size as int))
                        =~= Seq::empty());
                }
            }
            let kind: u8 = hdr[156];
            if kind == 0x30 || kind == 0 {
                let e: Entry<'a> = Entry {
                    name: entry_name(hdr),
                    data: slice_subrange(data, start, end),
                };
                proof {
                    let rest = files_from(data@, next_header(off as int, size as int));
                    let one = seq![
                        (path_of(h), data@.subrange(off + 512, off + 512 + size as int)),
                    ];
                    assert((one + rest).drop_first() =~= rest);
                }
                return Some(e);
            }
        }
    }
}

proof fn lemma_padding(size: int, pad: int)
    requires
        size >= 0,
        pad == (512 - size % 512) % 512,
    ensures
        size + pad == (size + 511) / 512 * 512,
{
}

fn all_zero(b: &[u8]) -> (r: bool)
    ensures
        r == is_zero_block(b@),
{
    let n: usize = b.len();
    let mut i: usize = 0;
    while i < n
        invariant
            i <= n,
            n == b@.len(),
            forall|k: int| 0 <= k < i ==> b@[k] == 0,
        decreases n - i,
    {
        if b[i] != 0 {
            return false;
        }
        i += 1;
    }
    true
}

/// Every regular file in the archive, in archive order; none if there is no
/// archive.
pub fn entries<'a>(archive: Option<&'a [u8]>) -> (r: Entries<'a>)
    ensures
        r.off == 0,
        archive matches Some(a) ==> r.rest() == files(a@),
        archive is None ==> r.rest().len() == 0,
{
    match archive {
        Some(data) => Entries { data, off: 0 },
        None => Entries { data: &[], off: 0 },
    }
}

/// The contents of the first file, from place `i` on, with a path.
pub open spec fn file_named(f: Seq<(Seq<char>, Seq<u8>)>, name: Seq<char>) -> Option<Seq<u8>>
    decreases f.len(),
{
    if f.len() == 0 {
        None
    } else if f[0].0 == name {
        Some(f[0].1)
    } else {
        file_named(f.drop_first(), name)
    }
}

/// The files of an archive that may not be there.
pub open spec fn files_of(archive: Option<&[u8]>) -> Seq<(Seq<char>, Seq<u8>)> {
    match archive {
        Some(a) => files(a@),
        None => Seq::empty(),
    }
}

/// The contents of the file at `path`, if there is one.
pub fn find<'a>(archive: Option<&'a [u8]>, path: &str) -> (r: Option<&'a [u8]>)
    ensures
        match r {
            Some(d) => file_named(files_of(archive), normal(path@)) == Some(d@),
            None => file_named(files_of(archive), normal(path@)) is None,
        },
{
    let given: Vec<char> = chars_of(path);
    let want: Vec<char> = normalize(given.as_slice());
    let mut walk: Entries<'a> = entries(archive);
    proof {
        assert(archive is None ==> walk.rest() =~= Seq::empty());
    }
    loop
        invariant
            want@ == normal(path@),
            file_named(walk.rest(), want@) == file_named(files_of(archive), want@),
        decreases walk.data@.len() - walk.off,
    {
        match walk.next() {
            Some(e) => {
                let name: Vec<char> = chars_of(e.name.as_str());
                if same_chars(name.as_slice(), want.as_slice()) {
                    return Some(e.data);
                }
            },
            None => {
                return None;
            },
        }
    }
}

/// The number of files.
pub fn count_files(archive: Option<&[u8]>) -> (r: usize)
    ensures
        r == files_of(archive).len(),
{
    let mut walk: Entries = entries(archive);
    let ghost total = files_of(archive);
    proof {
        assert(archive is None ==> walk.rest() =~= Seq::empty());
    }
    let mut n: usize = 0;
    loop
        invariant
            n + walk.rest().len() == total.len(),
            total == files_of(archive),
            n <= walk.off,
        decreases walk.data@.len() - walk.off,
    {
        match walk.next() {
            Some(_e) => {
                n += 1;
            },
            None => {
                return n;
            },
        }
    }
}

/// What looking at the module with the archive came to.
#[derive(Clone, Copy, Debug, PartialEq, Eq, Structural)]
pub enum Module {
    TooSmall,
    NotMapped,
    /// It holds no files.
    Empty,
    Files(usize),
}

/// Look at the module that the bootloader has loaded, of which the first and
/// the last byte must be mapped.
pub fn init(archive: &[u8], first_mapped: bool, last_mapped: bool) -> (r: Module)
    ensures
        r == if archive@.len() < 512 {
            Module::TooSmall
        } else if !first_mapped || !last_mapped {
            Module::NotMapped
        } else if files(archive@).len() == 0 {
            Module::Empty
        } else {
            Module::Files(files(archive@).len() as usize)
        },
{
    if archive.len() < BLOCK {
        return Module::TooSmall;
    }
    if !first_mapped || !last_mapped {
        return Module::NotMapped;
    }
    let n: usize = count_files(Some(archive));
    if n == 0 {
        Module::Empty
    } else {
        Module::Files(n)
    }
}

/// Whether a string ends in another.
pub open spec fn ends_in(s: Seq<char>, suffix: Seq<char>) -> bool {
    suffix.len() <= s.len() && s.skip(s.len() - suffix.len()) == suffix
}

/// A module that the bootloader loaded: its path, where it is and how long.
pub struct BootModule {
    pub path: String,
    pub base: u64,
    pub size: u64,
}

/// The first module, from place `i` on, whose path ends in a suffix.
pub open spec fn boot_module(modules: Seq<BootModule>, suffix: Seq<char>, i: int) -> Option<int>
    decreases modules.len() - i,
{
    if i < 0 || i >= modules.len() {
        None
    } else if ends_in(modules[i].path@, suffix) {
        Some(i)
    } else {
        boot_module(modules, suffix, i + 1)
    }
}

/// Whether a module can be read: it holds something, ends within the address space,
/// and its first and its last byte are mapped.
pub open spec fn is_readable(m: BootModule, mem: PhysicalMemory, vmm: Option<Vmm>) -> bool {
    &&& m.size > 0
    &&& m.base + (m.size - 1) <= u64::MAX
    &&& kernel_walked(mem, vmm, m.base) is Some
    &&& kernel_walked(mem, vmm, (m.base + (m.size - 1)) as u64) is Some
}

/// The module whose path ends in a suffix, such as `initramfs.tar` or `fat32.img`, if it
/// can be read.
pub fn module_bytes(
    modules: &Vec<BootModule>,
    suffix: &str,
    mem: &PhysicalMemory,
    vmm: &Option<Vmm>,
) -> (r: Option<usize>)
    requires
        is_kernel_space(*mem, *vmm),
    ensures
        match r {
            Some(i) => boot_module(modules@, suffix@, 0) == Some(i as int) && i < modules@.len()
                && is_readable(modules@[i as int], *mem, *vmm),
            None => match boot_module(modules@, suffix@, 0) {
                Some(i) => !is_readable(modules@[i], *mem, *vmm),
                None => true,
            },
        },
{
    let want: Vec<char> = chars_of(suffix);
    let n: usize = modules.len();
    let mut i: usize = 0;
    while i < n
        invariant
            i <= n,
            n == modules@.len(),
            want@ == suffix@,
            is_kernel_space(*mem, *vmm),
            boot_module(modules@, suffix@, 0) == boot_module(modules@, suffix@, i as int),
        decreases n - i,
    {
        if has_suffix(modules[i].path.as_str(), want.as_slice()) {
            let m: &BootModule = &modules[i];
            if m.size == 0 || m.base > u64::MAX - (m.size - 1) {
                return None;
            }
            if translate(mem, vmm, m.base).is_none() || translate(
                mem,
                vmm,
                m.base + (m.size - 1),
            ).is_none() {
                return None;
            }
            return Some(i);
        }
        i += 1;
    }
    None
}

/// Whether a path ends in a suffix.
fn has_suffix(path: &str, want: &[char]) -> (r: bool)
    ensures
        r == ends_in(path@, want@),
{
    let p: Vec<char> = chars_of(path);
    if want.len() > p.len() {
        return false;
    }
    let tail: Vec<char> = piece(p.as_slice(), p.len() - want.len(), p.len());
    proof {
        assert(p@.skip(p@.len() - want@.len()) =~= tail@);
    }
    same_chars(tail.as_slice(), want)
}

/// What is wrong with an archive.
#[derive(Clone, Copy, Debug, PartialEq, Eq, Structural)]
pub enum ArchiveFault {
    Missing,
    NoInit,
    InitNotElf,
    BadNormalization,
    GhostFile,
}

pub open spec fn is_elf(d: Seq<u8>) -> bool {
    d.len() >= 4 && d[0] == 0x7f && d[1] == 0x45 && d[2] == 0x4c && d[3] == 0x46
}

/// Try an archive out: `/init` is there, is an executable, and has several
/// spellings; what is not there is not found. Gives the length of `/init`.
pub fn self_test(archive: Option<&[u8]>) -> (r: Result<usize, ArchiveFault>)
    ensures
        ({
            let f = files_of(archive);
            let init = file_named(f, "init"@);
            r == if archive is None {
                Err::<usize, ArchiveFault>(ArchiveFault::Missing)
            } else if init is None {
                Err(ArchiveFault::NoInit)
            } else if !is_elf(init->0) {
                Err(ArchiveFault::InitNotElf)
            } else if file_named(f, "definitely/not/here"@) is Some {
                Err(ArchiveFault::GhostFile)
            } else {
                Ok(init->0.len() as usize)
            }
        }),
{
    proof {
        reveal_strlit("init");
        reveal_strlit("/init");
        reveal_strlit("./init");
        reveal_strlit("/definitely/not/here");
        reveal_strlit("definitely/not/here");
        assert("/init"@ =~= seq!['/'] + "init"@);
        assert("./init"@ =~= seq!['.', '/'] + "init"@);
        law_leading_slashes_do_not_matter("init"@);
        assert("/definitely/not/here"@ =~= seq!['/'] + "definitely/not/here"@);
        law_leading_slashes_do_not_matter("definitely/not/here"@);
    }
    if archive.is_none() {
        return Err(ArchiveFault::Missing);
    }
    let d: &[u8] = match find(archive, "/init") {
        Some(d) => d,
        None => {
            return Err(ArchiveFault::NoInit);
        },
    };
    if !(d.len() >= 4 && d[0] == 0x7f && d[1] == 0x45 && d[2] == 0x4c && d[3] == 0x46) {
        return Err(ArchiveFault::InitNotElf);
    }
    let plain: usize = match find(archive, "init") {
        Some(e) => e.len(),
        None => 0,
    };
    let dotted: usize = match find(archive, "./init") {
        Some(e) => e.len(),
        None => 0,
    };
    if plain != d.len() || dotted != d.len() {
        return Err(ArchiveFault::BadNormalization);
    }
    if find(archive, "/definitely/not/here").is_some() {
        return Err(ArchiveFault::GhostFile);
    }
    Ok(d.len())
}

/// The boot module that is taken is the first whose path ends as asked for.
pub proof fn law_first_module(modules: Seq<BootModule>, suffix: Seq<char>, i: int, dir: Seq<char>)
    requires
        0 <= i <= modules.len(),
    ensures
        ends_in(dir + suffix, suffix),
        match boot_module(modules, suffix, i) {
            Some(k) => i <= k < modules.len() && suffix.is_suffix_of(modules[k].path@) && forall|j: int|
                i <= j < k ==> !suffix.is_suffix_of((#[trigger] modules[j]).path@),
            None => forall|j: int|
                i <= j < modules.len() ==> !suffix.is_suffix_of((#[trigger] modules[j]).path@),
        },
    decreases modules.len() - i,
{
    assert((dir + suffix).skip(dir.len() as int) =~= suffix);
    if i < modules.len() {
        let p = modules[i].path@;
        if suffix.len() <= p.len() {
            assert(p.skip(p.len() - suffix.len()) =~= p.subrange(p.len() - suffix.len(), p.len() as int));
        }
        if !ends_in(p, suffix) {
            law_first_module(modules, suffix, i + 1, dir);
        }
    }
}

} // verus!
