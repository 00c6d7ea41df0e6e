//! Small synchronous block-device interface used by filesystems.

use vstd::prelude::*;
use std::collections::BTreeMap;
use crate::text::same_str;

verus! {

pub const SECTOR_SIZE: usize = 512;

#[derive(Clone, Copy, Debug, PartialEq, Eq, Structural)]
pub enum BlockError {
    OutOfRange,
    BadBuffer,
    ReadOnly,
}

/// A device made of 512-byte sectors.
///
/// What it holds is a sequence of sectors. A device that is `reliable` never
/// fails a read in range, one that is `writable` never fails a write in range,
/// and one that is `durable` never fails a flush. A failing operation changes
/// nothing.
pub trait BlockDevice: Sized {
    /// The device's own invariant.
    spec fn wf(&self) -> bool;

    /// What the device holds, sector by sector.
    spec fn sectors(&self) -> Seq<Seq<u8>>;

    spec fn reliable(&self) -> bool;

    spec fn writable(&self) -> bool;

    spec fn durable(&self) -> bool;

    /// Sectors are 512 bytes long and their number fits in 64 bits.
    proof fn sectors_fit(&self)
        requires
            self.wf(),
        ensures
            self.sectors().len() <= u64::MAX,
            forall|i: int| 0 <= i < self.sectors().len() ==> (#[trigger] self.sectors()[i]).len() == 512,
    ;

    fn sector_count(&self) -> (n: u64)
        requires
            self.wf(),
        ensures
            n == self.sectors().len(),
    ;

    fn read_sector(&self, lba: u64, out: &mut [u8; SECTOR_SIZE]) -> (r: Result<(), BlockError>)
        requires
            self.wf(),
        ensures
            r is Ok ==> lba < self.sectors().len() && final(out)@ == self.sectors()[lba as int],
            r is Err ==> *final(out) == *old(out),
            lba >= self.sectors().len() ==> r == Err::<(), BlockError>(BlockError::OutOfRange),
            lba < self.sectors().len() && self.reliable() ==> r is Ok,
    ;

    fn write_sector(&mut self, lba: u64, data: &[u8; SECTOR_SIZE]) -> (r: Result<(), BlockError>)
        requires
            old(self).wf(),
        ensures
            final(self).wf(),
            final(self).reliable() == old(self).reliable(),
            final(self).writable() == old(self).writable(),
            final(self).durable() == old(self).durable(),
            r is Ok ==> lba < old(self).sectors().len() && final(self).sectors()
                == old(self).sectors().update(lba as int, data@),
            r is Err ==> final(self).sectors() == old(self).sectors(),
            lba < old(self).sectors().len() && old(self).writable() ==> r is Ok,
            !old(self).writable() ==> r is Err,
    ;

    /// Make completed writes durable when the backing device supports it.
    fn flush(&mut self) -> (r: Result<(), BlockError>)
        requires
            old(self).wf(),
        ensures
            final(self).wf(),
            final(self).sectors() == old(self).sectors(),
            final(self).reliable() == old(self).reliable(),
            final(self).writable() == old(self).writable(),
            final(self).durable() == old(self).durable(),
            old(self).durable() ==> r is Ok,
    ;
}

/// A named block device.
pub struct RegisteredDevice<D> {
    pub name: &'static str,
    pub device: D,
}

/// The block devices published so far, in the order they came.
pub struct DeviceRegistry<D> {
    pub entries: Vec<RegisteredDevice<D>>,
}

impl<D> DeviceRegistry<D> {
    pub open spec fn has(self, name: Seq<char>) -> bool {
        exists|i: int| 0 <= i < self.entries@.len() && (#[trigger] self.entries@[i]).name@ == name
    }

    /// No two devices share a name.
    pub open spec fn wf(self) -> bool {
        forall|i: int, j: int|
            0 <= i < j < self.entries@.len() ==> (#[trigger] self.entries@[i]).name@ != (
            #[trigger] self.entries@[j]).name@
    }

    pub fn new() -> (r: Self)
        ensures
            r.entries@ == Seq::<RegisteredDevice<D>>::empty(),
            r.wf(),
    {
        DeviceRegistry { entries: Vec::new() }
    }
}

/// Publish a block device to kernel tools such as `lsblk`. A device whose name
/// is taken is dropped.
pub fn register_device<D>(registry: &mut DeviceRegistry<D>, name: &'static str, device: D)
    requires
        old(registry).wf(),
    ensures
        final(registry).wf(),
        final(registry).entries@ == if old(registry).has(name@) {
            old(registry).entries@
        } else {
            old(registry).entries@.push(RegisteredDevice { name, device })
        },
{
    let mut i: usize = 0;
    while i < registry.entries.len()
        invariant
            *registry == *old(registry),
            old(registry).wf(),
            i <= registry.entries@.len(),
            forall|k: int| 0 <= k < i ==> (#[trigger] registry.entries@[k]).name@ != name@,
        decreases registry.entries@.len() - i,
    {
        if same_str(registry.entries[i].name, name) {
            return ;
        }
        i += 1;
    }
    registry.entries.push(RegisteredDevice { name, device });
}

pub fn devices<D>(registry: &DeviceRegistry<D>) -> (r: &Vec<RegisteredDevice<D>>)
    ensures
        *r == registry.entries,
{
    &registry.entries
}

/// A bounded view of a partition on a parent block device.
/// All filesystem LBAs are relative to the partition start.
pub struct PartitionDevice<D> {
    parent: D,
    start_lba: u64,
    sectors: u64,
}

impl<D: BlockDevice> PartitionDevice<D> {
    pub closed spec fn parent_device(&self) -> D {
        self.parent
    }

    pub closed spec fn start(&self) -> int {
        self.start_lba as int
    }

    pub closed spec fn length(&self) -> int {
        self.sectors as int
    }

    /// A view of `sectors` sectors of `parent`, starting at `start_lba`, where
    /// there are that many.
    pub fn new(parent: D, start_lba: u64, sectors: u64) -> (r: Option<Self>)
        requires
            parent.wf(),
        ensures
            r is Some <==> sectors != 0 && start_lba + sectors <= parent.sectors().len(),
            r matches Some(p) ==> p.wf() && p.parent_device() == parent && p.start() == start_lba
                && p.length() == sectors,
    {
        proof {
            parent.sectors_fit();
        }
        let end: u64 = match start_lba.checked_add(sectors) {
            Some(end) => end,
            None => {
                return None;
            },
        };
        if sectors == 0 || end > parent.sector_count() {
            return None;
        }
        Some(PartitionDevice { parent, start_lba, sectors })
    }
}

impl<D: BlockDevice> BlockDevice for PartitionDevice<D> {
    closed spec fn wf(&self) -> bool {
        self.parent.wf() && self.start_lba + self.sectors <= self.parent.sectors().len()
    }

    open spec fn sectors(&self) -> Seq<Seq<u8>> {
        self.parent_device().sectors().subrange(self.start(), self.start() + self.length())
    }

    open spec fn reliable(&self) -> bool {
        self.parent_device().reliable()
    }

    open spec fn writable(&self) -> bool {
        self.parent_device().writable()
    }

    open spec fn durable(&self) -> bool {
        self.parent_device().durable()
    }

    proof fn sectors_fit(&self) {
        self.parent.sectors_fit();
    }

    fn sector_count(&self) -> (n: u64) {
        self.sectors
    }

    fn read_sector(&self, lba: u64, out: &mut [u8; SECTOR_SIZE]) -> (r: Result<(), BlockError>) {
        if lba >= self.sectors {
            return Err(BlockError::OutOfRange);
        }
        proof {
            self.parent.sectors_fit();
        }
        self.parent.read_sector(self.start_lba + lba, out)
    }

    /// A write changes the parent inside the partition and nowhere else.
    fn write_sector(&mut self, lba: u64, data: &[u8; SECTOR_SIZE]) -> (r: Result<(), BlockError>)
        ensures
            final(self).start() == old(self).start(),
            final(self).length() == old(self).length(),
            lba >= old(self).length() ==> r == Err::<(), BlockError>(BlockError::OutOfRange),
            r is Ok ==> final(self).parent_device().sectors()
                == old(self).parent_device().sectors().update(old(self).start() + lba, data@),
            r is Err ==> final(self).parent_device().sectors()
                == old(self).parent_device().sectors(),
    {
        if lba >= self.sectors {
            return Err(BlockError::OutOfRange);
        }
        proof {
            self.parent.sectors_fit();
        }
        let r: Result<(), BlockError> = self.parent.write_sector(self.start_lba + lba, data);
        assert(r is Ok ==> self.sectors() =~= old(self).sectors().update(lba as int, data@));
        r
    }

    fn flush(&mut self) -> (r: Result<(), BlockError>) {
        self.parent.flush()
    }
}

/// A block device backed by a loaded image. Writes are kept in a sparse RAM
/// overlay, leaving the original image intact.
pub struct MemoryBlockDevice<'a> {
    bytes: &'a [u8],
    overlay: BTreeMap<u64, [u8; SECTOR_SIZE]>,
}

impl<'a> MemoryBlockDevice<'a> {
    /// The image as it was loaded.
    pub closed spec fn image(&self) -> Seq<u8> {
        self.bytes@
    }

    /// The sectors written so far.
    pub closed spec fn written(&self) -> Map<u64, [u8; SECTOR_SIZE]> {
        self.overlay@
    }

    pub fn new(bytes: &'a [u8]) -> (r: Option<Self>)
        ensures
            r is Some <==> bytes@.len() >= 512 && bytes@.len() % 512 == 0,
            r matches Some(d) ==> d.wf() && d.image() == bytes@ && d.written()
                == Map::<u64, [u8; SECTOR_SIZE]>::empty(),
    {
        if bytes.len() < SECTOR_SIZE || bytes.len() % SECTOR_SIZE != 0 {
            return None;
        }
        Some(MemoryBlockDevice { bytes, overlay: BTreeMap::new() })
    }
}

impl<'a> BlockDevice for MemoryBlockDevice<'a> {
    closed spec fn wf(&self) -> bool {
        &&& self.bytes@.len() <= usize::MAX
        &&& forall|k: u64| #[trigger] self.overlay@.contains_key(k) ==> k < self.bytes@.len() / 512
    }

    /// The overlay where it has a sector, the image elsewhere.
    open spec fn sectors(&self) -> Seq<Seq<u8>> {
        Seq::new(
            (self.image().len() / 512) as nat,
            |i: int|
                if self.written().contains_key(i as u64) {
                    self.written()[i as u64]@
                } else {
                    self.image().subrange(i * 512, i * 512 + 512)
                },
        )
    }

    open spec fn reliable(&self) -> bool {
        true
    }

    open spec fn writable(&self) -> bool {
        true
    }

    open spec fn durable(&self) -> bool {
        false
    }

    proof fn sectors_fit(&self) {
        assert forall|i: int| 0 <= i < self.sectors().len() implies (
        #[trigger] self.sectors()[i]).len() == 512 by {}
    }

    fn sector_count(&self) -> (n: u64) {
        (self.bytes.len() / SECTOR_SIZE) as u64
    }

    fn read_sector(&self, lba: u64, out: &mut [u8; SECTOR_SIZE]) -> (r: Result<(), BlockError>) {
        match self.overlay.get(&lba) {
            Some(sector) => {
                assert(self.overlay@.contains_key(lba));
                *out = *sector;
                return Ok(());
            },
            None => {},
        }
        if lba >= self.sector_count() {
            return Err(BlockError::OutOfRange);
        }
        let start: usize = lba as usize * SECTOR_SIZE;
        let mut i: usize = 0;
        while i < SECTOR_SIZE
            invariant
                i <= 512,
                start == lba * 512,
                start + 512 <= self.bytes@.len(),
                self.bytes@.len() <= usize::MAX,
                out@.len() == 512,
                forall|k: int| 0 <= k < i ==> #[trigger] out@[k] == self.bytes@[start + k],
            decreases 512 - i,
        {
            out[i] = self.bytes[start + i];
            i += 1;
        }
        assert(out@ =~= self.sectors()[lba as int]);
        Ok(())
    }

    /// A write leaves the loaded image as it was.
    fn write_sector(&mut self, lba: u64, data: &[u8; SECTOR_SIZE]) -> (r: Result<(), BlockError>)
        ensures
            final(self).image() == old(self).image(),
            r == if lba < old(self).image().len() / 512 {
                Ok::<(), BlockError>(())
            } else {
                Err::<(), BlockError>(BlockError::OutOfRange)
            },
            r is Ok ==> final(self).written() == old(self).written().insert(lba, *data),
    {
        if lba >= self.sector_count() {
            return Err(BlockError::OutOfRange);
        }
        self.overlay.insert(lba, *data);
        assert(self.sectors() =~= old(self).sectors().update(lba as int, data@));
        Ok(())
    }

    fn flush(&mut self) -> (r: Result<(), BlockError>)
        ensures
            r == Err::<(), BlockError>(BlockError::ReadOnly),
            *final(self) == *old(self),
    {
        Err(BlockError::ReadOnly)
    }
}

} // verus!
