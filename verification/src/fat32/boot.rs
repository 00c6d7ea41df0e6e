//! The boot volume.

use vstd::prelude::*;
use crate::block::{
    register_device, BlockDevice, DeviceRegistry, MemoryBlockDevice, RegisteredDevice,
};
use crate::vfs::laws::lemma_top_path;
use crate::vfs::{mount_fat32, Filesystem, FsError, Vfs};
use super::boot_geometry;

verus! {

/// Why there is no boot volume.
#[derive(Clone, Copy, Debug, PartialEq, Eq, Structural)]
pub enum BootVolumeFault {
    /// The bootloader has loaded no image, or it is not mapped.
    Missing,
    /// Its size is not a multiple of a sector's.
    BadSize,
    /// It could not be mounted.
    NotMounted(FsError),
}

/// Whether something is mounted at `/disk` already.
pub open spec fn is_taken<D>(vfs: Vfs<D>) -> bool {
    exists|i: int|
        0 <= i < vfs.mounts@.len() && (#[trigger] vfs.mounts@[i]).prefix@ == "/disk"@
}

/// What mounting an image comes to: its number of sectors.
pub open spec fn mounted(b: Seq<u8>, taken: bool) -> Result<u64, BootVolumeFault> {
    if boot_geometry(b.take(512), b.len() as int / 512) is Err {
        Err(BootVolumeFault::NotMounted(FsError::Io))
    } else if taken {
        Err(BootVolumeFault::NotMounted(FsError::InvalidPath))
    } else {
        Ok((b.len() / 512) as u64)
    }
}

/// Mount the FAT32 boot image at `/disk`, if the bootloader loaded it. The device is
/// published as `ram0` by its number of sectors, also where it cannot be mounted.
pub fn mount_boot_volume<'a>(
    vfs: &mut Vfs<'a, MemoryBlockDevice<'a>>,
    registry: &mut DeviceRegistry<u64>,
    image: Option<&'a [u8]>,
) -> (r: Result<u64, BootVolumeFault>)
    requires
        old(vfs).wf(),
        old(registry).wf(),
    ensures
        final(vfs).wf(),
        final(registry).wf(),
        final(vfs).archive == old(vfs).archive,
        match image {
            None => r == Err::<u64, BootVolumeFault>(BootVolumeFault::Missing)
                && final(registry).entries@ == old(registry).entries@,
            Some(b) => if b@.len() < 512 || b@.len() % 512 != 0 {
                &&& r == Err::<u64, BootVolumeFault>(BootVolumeFault::BadSize)
                &&& final(registry).entries@ == old(registry).entries@
            } else {
                &&& r == mounted(b@, is_taken(*old(vfs)))
                &&& final(registry).entries@ == if old(registry).has("ram0"@) {
                    old(registry).entries@
                } else {
                    old(registry).entries@.push(
                        RegisteredDevice { name: "ram0", device: (b@.len() / 512) as u64 },
                    )
                }
            },
        },
        r is Err ==> final(vfs).mounts@ == old(vfs).mounts@,
        r is Ok ==> {
            let n = old(vfs).mounts@.len() as int;
            &&& final(vfs).mounts@.len() == n + 1
            &&& final(vfs).mounts@.take(n) == old(vfs).mounts@
            &&& final(vfs).mounts@[n].prefix@ == "/disk"@
            &&& final(vfs).mounts@[n].fs matches Filesystem::Fat32(fs) && fs.device.image()
                == image->0@ && fs.device.written().is_empty() && fs.is_just_mounted(fs.device)
        },
{
    let bytes: &'a [u8] = match image {
        Some(b) => b,
        None => {
            return Err(BootVolumeFault::Missing);
        },
    };
    let device: MemoryBlockDevice<'a> = match MemoryBlockDevice::new(bytes) {
        Some(d) => d,
        None => {
            return Err(BootVolumeFault::BadSize);
        },
    };
    let sectors: u64 = device.sector_count();
    proof {
        reveal_strlit("/disk");
        let name = "/disk"@.skip(1);
        assert("/disk"@ =~= seq!['/'] + name);
        lemma_top_path(name);
        assert(device.sectors()[0] =~= bytes@.take(512));
        assert("/disk"@ != seq!['/']);
    }
    register_device(registry, "ram0", sectors);
    match mount_fat32(vfs, "/disk", device) {
        Ok(()) => Ok(sectors),
        Err(e) => Err(BootVolumeFault::NotMounted(e)),
    }
}

} // verus!
