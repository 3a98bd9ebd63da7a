//! A block device kept in memory.

use vstd::prelude::*;
use crate::fs::{image_wf, BlockDevice, Image};

verus! {

/// A block device in memory: its blocks, by their numbers.
pub struct MemDisk {
    pub blocks: Vec<[u8; 512]>,
}

impl MemDisk {
    /// A device of `nblocks` blocks, every byte zero.
    pub fn new(nblocks: u32) -> (d: MemDisk)
        ensures
            image_wf(d.image()),
            d.image().len() == nblocks,
            forall|i: int, j: int|
                0 <= i < nblocks && 0 <= j < 512 ==> (#[trigger] d.image()[i][j]) == 0u8,
    {
        let mut blocks: Vec<[u8; 512]> = Vec::new();
        let mut i: u32 = 0;
        while i < nblocks
            invariant
                i <= nblocks,
                blocks@.len() == i,
                forall|k: int, j: int|
                    0 <= k < i && 0 <= j < 512 ==> (#[trigger] blocks@[k]@[j]) == 0u8,
            decreases nblocks - i,
        {
            blocks.push([0u8; 512]);
            i = i + 1;
        }
        MemDisk { blocks }
    }

    /// A copy of the device as it is now.
    pub fn snapshot(&self) -> (d: MemDisk)
        ensures
            d.image() == self.image(),
    {
        let d = MemDisk { blocks: self.blocks.clone() };
        assert(d.blocks@.len() == self.blocks@.len());
        assert(d.image() =~= self.image()) by {
            assert forall|i: int| 0 <= i < self.blocks@.len() implies d.blocks@[i] == self.blocks@[i] by {
                assert(cloned(self.blocks@[i], d.blocks@[i]));
            }
        }
        d
    }
}

impl BlockDevice for MemDisk {
    open spec fn image(&self) -> Image {
        Seq::new(self.blocks@.len(), |i: int| self.blocks@[i]@)
    }

    fn block_count(&self) -> (n: u32) {
        self.blocks.len() as u32
    }

    fn read_block(&self, block_id: u32, buf: &mut [u8; 512]) {
        *buf = self.blocks[block_id as usize];
    }

    fn write_block(&mut self, block_id: u32, buf: &[u8; 512]) {
        self.blocks[block_id as usize] = *buf;
        assert(self.image() =~= old(self).image().update(block_id as int, buf@));
    }
}

} // verus!
