//! The filesystem that is mounted: the volume and the tables in memory.
//! Every operation takes it as its first argument.

use vstd::prelude::*;
use crate::file::{FDType, FileTable};
use crate::fs::{image_wf, BlockDevice, FsError, NFILE, NINODES};
use crate::inode::InodePtrManager;
use crate::volume::{mountable, Volume};

verus! {

/// A mounted filesystem: the volume, the table of inodes in use and the
/// table of open files.
pub struct Filesystem<D: BlockDevice> {
    pub vol: Volume<D>,
    pub inodes: InodePtrManager,
    pub files: FileTable,
}

impl<D: BlockDevice> Filesystem<D> {
    /// The volume and the tables are in order, and every inode that has a
    /// slot is an inode of the volume.
    pub open spec fn inv(&self) -> bool {
        &&& self.vol.inv()
        &&& self.inodes.wf()
        &&& self.files.wf()
        &&& forall|i: int|
            0 <= i < self.inodes.slots@.len() && (#[trigger] self.inodes.slots@[i]).refs > 0
                ==> self.inodes.slots@[i].inum < self.vol.sb.ninodes
    }

    /// Mounts the filesystem that the device holds; see `Volume::mount`.
    /// No inode is in use and no file is open.
    pub fn mount(dev: D) -> (r: Result<Filesystem<D>, FsError>)
        requires
            image_wf(dev.image()),
        ensures
            r matches Ok(fs) ==> {
                &&& fs.inv()
                &&& !fs.vol.in_txn()
                &&& Volume::mount_result(dev.image(), fs.vol)
                &&& fs.inodes.slots@.len() == NINODES
                &&& fs.files.files@.len() == NFILE
                &&& forall|i: int|
                    0 <= i < fs.inodes.slots@.len() ==> (#[trigger] fs.inodes.slots@[i]).refs
                        == 0
                &&& forall|i: int|
                    0 <= i < NFILE ==> (#[trigger] fs.files.files@[i]).refs == 0
                        && fs.files.files@[i].ty == FDType::Free
            },
            r is Ok <==> mountable(dev.image()),
            r matches Err(e) ==> e == FsError::Corrupt,
    {
        match Volume::mount(dev) {
            Err(e) => Err(e),
            Ok(vol) => Ok(Filesystem { vol, inodes: InodePtrManager::new(), files: FileTable::new() }),
        }
    }

    /// Gives the device back; see `Volume::unmount`.
    pub fn unmount(self) -> (dev: D)
        requires
            self.inv(),
        ensures
            dev.image() == self.vol.durable(),
            !self.vol.in_txn() ==> dev.image() == self.vol.image(),
    {
        self.vol.unmount()
    }
}

} // verus!
