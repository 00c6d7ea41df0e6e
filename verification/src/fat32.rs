//! FAT32 filesystem over a 512-byte block device.

use vstd::prelude::*;
use crate::block::{BlockDevice, BlockError, SECTOR_SIZE};
use crate::bytes::{le16, le32, u16le, u32le};
use self::model::{is_power_of_two, Geometry, Volume};

pub use self::boot::mount_boot_volume;

pub mod adding;
pub mod aliases;
pub mod boot;
pub mod calls;
pub mod creating;
pub mod directory;
pub mod files;
pub mod fresh;
pub mod full;
pub mod laws;
pub mod layout;
pub mod mirror;
pub mod model;
pub mod names;
pub mod naming;
pub mod reading;
pub mod removing;
pub mod resizing;
pub mod short;
pub mod shown;
pub mod table;
pub mod update;
pub mod upkeep;
pub mod walks;

verus! {

#[derive(Clone, Copy, Debug, PartialEq, Eq, Structural)]
pub enum FatError {
    Io,
    InvalidBootSector,
    Unsupported,
    Corrupt,
    NotFound,
    NotDirectory,
    IsDirectory,
    TooLarge,
    NoSpace,
    InvalidName,
    AlreadyExists,
    DirectoryNotEmpty,
}

/// A mounted FAT32 volume.
pub struct Fat32<D> {
    pub device: D,
    pub geometry: Geometry,
    pub next_free_hint: u32,
    pub fsinfo_sector: Option<u16>,
    pub fsinfo_invalidated: bool,
}

/// Whether a fallible operation gave what was expected of it. A device that can
/// fail may have made it fail instead.
pub open spec fn agrees<T>(
    r: Result<T, FatError>,
    expected: Result<T, FatError>,
    reliable: bool,
) -> bool {
    r == expected || (!reliable && r == Err::<T, FatError>(FatError::Io))
}

/// The number of sectors that a boot sector claims.
pub open spec fn boot_total(b: Seq<u8>) -> int {
    if le16(b, 19) != 0 {
        le16(b, 19)
    } else {
        le32(b, 32)
    }
}

/// Whether a boot sector describes a kind of volume that can be mounted on a
/// device of `count` sectors.
pub open spec fn boot_supported(b: Seq<u8>, count: int) -> bool {
    &&& le16(b, 11) == 512
    &&& is_power_of_two(b[13])
    &&& le16(b, 14) != 0
    &&& b[16] != 0
    &&& le32(b, 36) != 0
    &&& le16(b, 17) == 0
    &&& le16(b, 22) == 0
    &&& boot_total(b) <= count
}

pub open spec fn boot_data_start(b: Seq<u8>) -> int {
    le16(b, 14) + b[16] * le32(b, 36)
}

pub open spec fn boot_clusters(b: Seq<u8>) -> int {
    (boot_total(b) - boot_data_start(b)) / (b[13] as int)
}

/// The volume that a boot sector describes, or why there is none.
pub open spec fn boot_geometry(b: Seq<u8>, count: int) -> Result<Geometry, FatError> {
    if b[510] != 0x55 || b[511] != 0xaa {
        Err(FatError::InvalidBootSector)
    } else if !boot_supported(b, count) {
        Err(FatError::Unsupported)
    } else if boot_data_start(b) >= boot_total(b) {
        Err(FatError::InvalidBootSector)
    } else if boot_clusters(b) < 1 || boot_clusters(b) > 0x0fff_fff5 || le32(b, 36) * 128
        < boot_clusters(b) + 2 || le32(b, 44) % 0x1000_0000 < 2 || le32(b, 44) % 0x1000_0000
        >= boot_clusters(b) + 2 {
        Err(FatError::InvalidBootSector)
    } else {
        Ok(
            Geometry {
                sectors_per_cluster: b[13],
                reserved_sectors: le16(b, 14) as u16,
                fat_count: b[16],
                sectors_per_fat: le32(b, 36) as u32,
                root_cluster: (le32(b, 44) % 0x1000_0000) as u32,
                data_start: boot_data_start(b) as u64,
                cluster_count: boot_clusters(b) as u32,
            },
        )
    }
}

/// The free-space summary sector that a boot sector names, if it names one.
pub open spec fn boot_fsinfo(b: Seq<u8>) -> Option<u16> {
    if le16(b, 48) != 0 && le16(b, 48) < le16(b, 14) {
        Some(le16(b, 48) as u16)
    } else {
        None
    }
}

impl<D: BlockDevice> Fat32<D> {
    /// The volume as a mathematical value.
    pub open spec fn volume(&self) -> Volume {
        Volume {
            g: self.geometry,
            img: self.device.sectors(),
            hint: self.next_free_hint,
            fsinfo: self.fsinfo_sector,
            marked: self.fsinfo_invalidated,
        }
    }

    pub open spec fn wf(&self) -> bool {
        self.device.wf() && self.volume().wf()
    }

    /// Whether this is the volume that the first sector of a device describes, before any
    /// use of it.
    pub open spec fn is_just_mounted(&self, device: D) -> bool {
        &&& self.device == device
        &&& device.sectors().len() > 0
        &&& boot_geometry(device.sectors()[0], device.sectors().len() as int) == Ok::<
            Geometry,
            FatError,
        >(self.geometry)
        &&& self.fsinfo_sector == boot_fsinfo(device.sectors()[0])
        &&& self.next_free_hint == 2
        &&& !self.fsinfo_invalidated
    }

    /// Whether the device fails no operation in range.
    pub open spec fn healthy(&self) -> bool {
        self.device.reliable() && self.device.writable()
    }

    /// Whether an operation came to what it should: it did and answered what is expected
    /// where it succeeded, or where the device fails nothing, and an error is the expected
    /// one or that of a device that failed.
    pub open spec fn is_made<T>(
        &self,
        before: &Self,
        r: Result<T, FatError>,
        expected: (Volume, Result<T, FatError>),
    ) -> bool {
        &&& r is Ok || before.healthy() ==> (self.volume(), r) == expected
        &&& r matches Err(e) ==> expected.1 == Err::<T, FatError>(e) || (!before.healthy() && e
            == FatError::Io)
    }

    /// What no operation changes: the validity of the volume, its geometry and
    /// what the device can do. On a device that takes no writes the sectors
    /// stay as they were too.
    pub open spec fn kept(&self, before: &Self) -> bool {
        &&& self.wf()
        &&& self.geometry == before.geometry
        &&& self.fsinfo_sector == before.fsinfo_sector
        &&& self.device.reliable() == before.device.reliable()
        &&& self.device.writable() == before.device.writable()
        &&& self.device.durable() == before.device.durable()
        &&& self.device.sectors().len() == before.device.sectors().len()
        &&& !before.device.writable() ==> self.device.sectors() == before.device.sectors()
    }

    /// Mount the volume that the first sector of a device describes.
    pub fn mount(device: D) -> (r: Result<Self, FatError>)
        requires
            device.wf(),
        ensures
            r matches Ok(fs) ==> {
                &&& fs.wf()
                &&& fs.is_just_mounted(device)
            },
            r matches Err(e) ==> {
                ||| device.sectors().len() > 0 && boot_geometry(
                    device.sectors()[0],
                    device.sectors().len() as int,
                ) == Err::<Geometry, FatError>(e)
                ||| device.sectors().len() == 0 && e == FatError::Io
                ||| !device.reliable() && e == FatError::Io
            },
    {
        proof {
            device.sectors_fit();
        }
        let mut b: [u8; SECTOR_SIZE] = [0u8; SECTOR_SIZE];
        match device.read_sector(0, &mut b) {
            Ok(_) => {},
            Err(_) => {
                return Err(FatError::Io);
            },
        }
        let boot: &[u8] = b.as_slice();
        if boot[510] != 0x55 || boot[511] != 0xaa {
            return Err(FatError::InvalidBootSector);
        }
        let sectors_per_cluster: u8 = boot[13];
        let reserved_sectors: u16 = u16le(boot, 14);
        let fat_count: u8 = boot[16];
        let total_sectors: u64 = if u16le(boot, 19) != 0 {
            u16le(boot, 19) as u64
        } else {
            u32le(boot, 32) as u64
        };
        let sectors_per_fat: u32 = u32le(boot, 36);
        let root_cluster: u32 = u32le(boot, 44) % 0x1000_0000;
        let fsinfo_sector: u16 = u16le(boot, 48);
        let spc: u8 = sectors_per_cluster;
        if u16le(boot, 11) != 512 || !(spc == 1 || spc == 2 || spc == 4 || spc == 8 || spc == 16
            || spc == 32 || spc == 64 || spc == 128) || reserved_sectors == 0 || fat_count == 0
            || sectors_per_fat == 0 || u16le(boot, 17) != 0 || u16le(boot, 22) != 0 || total_sectors
            > device.sector_count() {
            return Err(FatError::Unsupported);
        }
        assert(0 <= fat_count * sectors_per_fat <= 0xff * 0xffff_ffff) by (nonlinear_arith)
            requires
                0 <= fat_count <= 0xff,
                0 <= sectors_per_fat <= 0xffff_ffff,
        ;
        let data_start: u64 = reserved_sectors as u64 + fat_count as u64 * sectors_per_fat as u64;
        if data_start >= total_sectors {
            return Err(FatError::InvalidBootSector);
        }
        let clusters: u64 = (total_sectors - data_start) / spc as u64;
        assert(clusters <= total_sectors - data_start && clusters * spc <= total_sectors
            - data_start) by (nonlinear_arith)
            requires
                clusters == (total_sectors - data_start) / (spc as int),
                spc >= 1,
                total_sectors >= data_start,
        ;
        if clusters < 1 || clusters > 0x0fff_fff5 || sectors_per_fat as u64 * 128 < clusters + 2
            || root_cluster < 2 || root_cluster as u64 >= clusters + 2 {
            return Err(FatError::InvalidBootSector);
        }
        let geometry: Geometry = Geometry {
            sectors_per_cluster,
            reserved_sectors,
            fat_count,
            sectors_per_fat,
            root_cluster,
            data_start,
            cluster_count: clusters as u32,
        };
        Ok(
            Fat32 {
                device,
                geometry,
                next_free_hint: 2,
                fsinfo_sector: if fsinfo_sector != 0 && fsinfo_sector < reserved_sectors {
                    Some(fsinfo_sector)
                } else {
                    None
                },
                fsinfo_invalidated: false,
            },
        )
    }

    /// Make completed writes durable, where the device can.
    pub fn flush(&mut self) -> (r: Result<(), BlockError>)
        requires
            old(self).wf(),
        ensures
            final(self).kept(old(self)),
            final(self).volume() == old(self).volume(),
            old(self).device.durable() ==> r is Ok,
    {
        self.device.flush()
    }

    pub(crate) fn read_sector(&self, lba: u64, out: &mut [u8; SECTOR_SIZE]) -> (r: Result<
        (),
        FatError,
    >)
        requires
            self.wf(),
        ensures
            r is Ok ==> lba < self.device.sectors().len() && final(out)@
                == self.device.sectors()[lba as int],
            r matches Err(e) ==> e == FatError::Io,
            lba < self.device.sectors().len() && self.device.reliable() ==> r is Ok,
    {
        match self.device.read_sector(lba, out) {
            Ok(_) => Ok(()),
            Err(_) => Err(FatError::Io),
        }
    }

    pub(crate) fn write_sector(&mut self, lba: u64, data: &[u8; SECTOR_SIZE]) -> (r: Result<
        (),
        FatError,
    >)
        requires
            old(self).wf(),
        ensures
            final(self).kept(old(self)),
            r matches Err(e) ==> e == FatError::Io,
            r is Ok ==> lba < old(self).volume().img.len(),
            final(self).volume() == if r is Ok {
                old(self).volume().with_img(old(self).volume().img.update(lba as int, data@))
            } else {
                old(self).volume()
            },
            lba < old(self).volume().img.len() && old(self).device.writable() ==> r is Ok,
    {
        let r: Result<(), FatError> = match self.device.write_sector(lba, data) {
            Ok(_) => Ok(()),
            Err(_) => Err(FatError::Io),
        };
        proof {
            self.device.sectors_fit();
        }
        r
    }
}

} // verus!
