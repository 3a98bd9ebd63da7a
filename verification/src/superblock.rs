//! The superblock: where the parts of the disk are.

use vstd::prelude::*;
use crate::codec::{
    le32_seq, lemma_le32_seq_put32_seq, lemma_put32_seq_frame, load_words, put32_seq, store_words,
    Record,
};
use crate::buffer::HandleTable;
use crate::fs::{BlockDevice, Disk, FsError, BPB, FATPIGEORZMAGIC, IPB, LOGSIZE, SB_BLOCK};

verus! {

/// The superblock of the filesystem, as it stands in block 1.
#[derive(Debug, Clone, Copy, PartialEq, Eq, Structural)]
pub struct SuperBlock {
    /// Must be `FATPIGEORZMAGIC`.
    pub magic: u32,
    /// Size of the filesystem image, in blocks.
    pub size: u32,
    /// Number of data blocks.
    pub nblocks: u32,
    /// Number of inodes.
    pub ninodes: u32,
    /// Number of log blocks, the header among them.
    pub nlog: u32,
    /// Block number of the first log block, the header.
    pub logstart: u32,
    /// Block number of the first inode block.
    pub inodestart: u32,
    /// Block number of the first bitmap block.
    pub bmapstart: u32,
}

impl View for SuperBlock {
    type V = SuperBlock;

    open spec fn view(&self) -> SuperBlock {
        *self
    }
}

impl SuperBlock {
    /// The fields in the order in which they stand on disk.
    pub open spec fn words(self) -> Seq<u32> {
        seq![
            self.magic,
            self.size,
            self.nblocks,
            self.ninodes,
            self.nlog,
            self.logstart,
            self.inodestart,
            self.bmapstart,
        ]
    }

    /// The number of blocks that hold inodes.
    pub open spec fn inode_blocks(self) -> int {
        (self.ninodes + IPB - 1) / (IPB as int)
    }

    /// The number of blocks that hold the bitmap.
    pub open spec fn bitmap_blocks(self) -> int {
        (self.size + BPB - 1) / (BPB as int)
    }

    /// The first block after the metadata.
    pub open spec fn data_start(self) -> int {
        self.bmapstart + self.bitmap_blocks()
    }

    /// The magic number is right and the parts lie one after another inside
    /// an image of `self.size` blocks: boot block and superblock, log, inode
    /// blocks, bitmap blocks, data blocks. The log has a header and a body,
    /// and no more blocks than a shard of the cache has buffers, so that
    /// every block of a transaction can be held.
    pub open spec fn layout_ok(self) -> bool {
        &&& self.magic == FATPIGEORZMAGIC
        &&& 2 <= self.nlog <= LOGSIZE
        &&& 2 <= self.logstart
        &&& self.logstart + self.nlog <= self.inodestart
        &&& 2 <= self.ninodes
        &&& self.inodestart + self.inode_blocks() <= self.bmapstart
        &&& self.data_start() <= self.size
    }

    /// A superblock that was not read yet: it has the magic number and describes
    /// no layout.
    pub fn new() -> (sb: SuperBlock)
        ensures
            sb == (SuperBlock {
                magic: FATPIGEORZMAGIC,
                size: 0,
                nblocks: 0,
                ninodes: 0,
                nlog: 0,
                logstart: 0,
                inodestart: 0,
                bmapstart: 0,
            }),
    {
        SuperBlock {
            magic: FATPIGEORZMAGIC,
            size: 0,
            nblocks: 0,
            ninodes: 0,
            nlog: 0,
            logstart: 0,
            inodestart: 0,
            bmapstart: 0,
        }
    }

    /// Reads the superblock from block 1 and checks it against the device:
    /// the layout has to be in order and the image has to fit the device.
    pub fn init<D: BlockDevice>(&mut self, cache: &mut HandleTable, disk: &mut Disk<D>) -> (r:
        Result<(), FsError>)
        requires
            old(cache).ok(old(disk).image()),
            old(disk).wf(),
        ensures
            final(cache).ok(final(disk).image()),
            final(cache).settled(old(cache)),
            final(cache).overlay(final(disk).image()) == old(cache).overlay(old(disk).image()),
            final(disk).wf(),
            final(disk).image() == old(disk).image(),
            final(disk).writes() == old(disk).writes(),
            r is Ok <==> 2 <= old(disk).image().len() && SuperBlock::decode(
                old(cache).overlay(old(disk).image())[1],
                0,
            ).layout_ok() && SuperBlock::decode(
                old(cache).overlay(old(disk).image())[1],
                0,
            ).size <= old(disk).image().len(),
            r is Ok ==> *final(self) == SuperBlock::decode(
                old(cache).overlay(old(disk).image())[1],
                0,
            ),
            r is Err ==> r == Err::<(), FsError>(FsError::Corrupt) && *final(self) == *old(self),
    {
        let len = disk.block_count();
        if len < 2 {
            proof {
                cache.lemma_settled_refl();
            }
            return Err(FsError::Corrupt);
        }
        proof {
            cache.lemma_roomy_has_room(SB_BLOCK);
        }
        let blk = cache.read_block(SB_BLOCK, disk);
        proof {
            cache.lemma_touched_settled(old(cache), SB_BLOCK);
        }
        let sb = SuperBlock::load(&blk, 0);
        if !sb.check_layout() || sb.size > len {
            return Err(FsError::Corrupt);
        }
        *self = sb;
        Ok(())
    }

    /// Whether the layout is one that the filesystem can work on.
    pub fn check_layout(&self) -> (ok: bool)
        ensures
            ok == self.layout_ok(),
    {
        if self.magic != FATPIGEORZMAGIC {
            return false;
        }
        if self.nlog < 2 || self.nlog > LOGSIZE || self.logstart < 2 {
            return false;
        }
        if self.ninodes < 2 {
            return false;
        }
        let log_end: u64 = self.logstart as u64 + self.nlog as u64;
        if log_end > self.inodestart as u64 {
            return false;
        }
        let iblocks: u64 = (self.ninodes as u64 + IPB as u64 - 1) / (IPB as u64);
        if self.inodestart as u64 + iblocks > self.bmapstart as u64 {
            return false;
        }
        let bblocks: u64 = (self.size as u64 + BPB as u64 - 1) / (BPB as u64);
        self.bmapstart as u64 + bblocks <= self.size as u64
    }
}

impl Record for SuperBlock {
    open spec fn size() -> nat {
        32
    }

    open spec fn decode(s: Seq<u8>, off: int) -> SuperBlock {
        let w = le32_seq(s, off, 8);
        SuperBlock {
            magic: w[0],
            size: w[1],
            nblocks: w[2],
            ninodes: w[3],
            nlog: w[4],
            logstart: w[5],
            inodestart: w[6],
            bmapstart: w[7],
        }
    }

    open spec fn encode(v: SuperBlock, s: Seq<u8>, off: int) -> Seq<u8> {
        put32_seq(s, off, v.words())
    }

    open spec fn valid(v: SuperBlock) -> bool {
        true
    }

    proof fn lemma_codec(v: SuperBlock, s: Seq<u8>, off: int) {
        lemma_le32_seq_put32_seq(s, off, v.words());
        lemma_put32_seq_frame(s, off, v.words());
        let w = le32_seq(put32_seq(s, off, v.words()), off, 8);
        assert(w == v.words());
        assert(w[0] == v.magic && w[1] == v.size && w[2] == v.nblocks && w[3] == v.ninodes);
        assert(w[4] == v.nlog && w[5] == v.logstart && w[6] == v.inodestart && w[7] == v.bmapstart);
    }

    fn byte_len() -> (n: usize) {
        32
    }

    fn load(buf: &[u8], off: usize) -> (r: SuperBlock) {
        let mut w = [0u32; 8];
        load_words(buf, off, &mut w);
        SuperBlock {
            magic: w[0],
            size: w[1],
            nblocks: w[2],
            ninodes: w[3],
            nlog: w[4],
            logstart: w[5],
            inodestart: w[6],
            bmapstart: w[7],
        }
    }

    fn store(&self, buf: &mut [u8], off: usize) {
        let w = [
            self.magic,
            self.size,
            self.nblocks,
            self.ninodes,
            self.nlog,
            self.logstart,
            self.inodestart,
            self.bmapstart,
        ];
        assert(w@ =~= self.words());
        store_words(&w, buf, off);
    }
}

} // verus!
