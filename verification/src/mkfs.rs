//! Making a filesystem on a device: the superblock, an empty log, the
//! inodes with the root directory as the only one in use, the bitmap with
//! the metadata and the root directory's block marked as used, and empty
//! data blocks.
//!
//! Disk layout:
//! `[ boot block | sb block | log | inode blocks | free bit map | data blocks ]`

use vstd::prelude::*;
use crate::bitmap::{bitmap_block, bitmap_byte, is_used, zero_block};
use crate::codec::{le32, lemma_le32_same, Record};
use crate::dir::{entry_at, mapped_spec};
use crate::fs::{
    image_wf, BLOCK_SIZE, BlockDevice, BPB, FATPIGEORZMAGIC, FsError, Image, IPB, LOGSIZE,
    NINODES, ROOTINO, SB_BLOCK,
};
use crate::inode::{
    dinode_at, dot_name, dotdot_name, inode_block, inode_offset, padded, DirEntry, DirEntryView,
    DiskInode, DiskInodeView,
};
use crate::superblock::SuperBlock;
use crate::volume::mountable;

verus! {

/// The number of bitmap blocks of an image of `fs_size` blocks.
pub open spec fn bitmap_blocks_for(fs_size: int) -> int {
    (fs_size + BPB - 1) / (BPB as int)
}

/// The number of blocks before the data area of an image of `fs_size`
/// blocks: boot block, superblock, log, inode blocks, bitmap blocks.
pub open spec fn meta_blocks(fs_size: int) -> int {
    2 + LOGSIZE + NINODES / IPB + bitmap_blocks_for(fs_size)
}

/// The superblock of a new filesystem of `fs_size` blocks.
pub open spec fn fresh_superblock(fs_size: u32) -> SuperBlock {
    SuperBlock {
        magic: FATPIGEORZMAGIC,
        size: fs_size,
        nblocks: (fs_size - meta_blocks(fs_size as int)) as u32,
        ninodes: NINODES,
        nlog: LOGSIZE,
        logstart: 2,
        inodestart: (2 + LOGSIZE) as u32,
        bmapstart: (2 + LOGSIZE + NINODES / IPB) as u32,
    }
}

/// The inode of the root directory of a new filesystem: a directory named
/// once, with the two entries `.` and `..` in the first data block.
pub open spec fn root_dinode(fs_size: int) -> DiskInodeView {
    DiskInodeView {
        dev: 0,
        ftype: 2,
        nlink: 1,
        size: 64,
        addrs: Seq::new(13, |i: int| if i == 0 { meta_blocks(fs_size) as u32 } else { 0u32 }),
    }
}

/// The byte of a new bitmap that holds the bits of the blocks `base` to
/// `base + 7`, where the first `used` blocks are in use.
pub open spec fn fresh_bits(used: int, base: int) -> u8 {
    if base + 8 <= used {
        0xffu8
    } else if used <= base {
        0u8
    } else {
        ((1u16 << ((used - base) as u16)) - 1) as u8
    }
}

/// Block `b` of a new filesystem of `fs_size` blocks.
pub open spec fn fresh_block(fs_size: u32, b: int) -> Seq<u8> {
    let sb = fresh_superblock(fs_size);
    let start = meta_blocks(fs_size as int);
    if b == SB_BLOCK {
        SuperBlock::encode(sb, zero_block(), 0)
    } else if b == sb.inodestart {
        DiskInode::encode(root_dinode(fs_size as int), zero_block(), 64)
    } else if sb.bmapstart <= b < start {
        Seq::new(512, |j: int| fresh_bits(start + 1, (b - sb.bmapstart) * BPB + j * 8))
    } else if b == start {
        DirEntry::encode(
            DirEntryView { inum: ROOTINO, name: padded(dotdot_name(), 28) },
            DirEntry::encode(
                DirEntryView { inum: ROOTINO, name: padded(dot_name(), 28) },
                zero_block(),
                0,
            ),
            32,
        )
    } else {
        zero_block()
    }
}

/// The image of a new filesystem of `fs_size` blocks.
pub open spec fn fresh_image(fs_size: u32) -> Image {
    Seq::new(fs_size as nat, |b: int| fresh_block(fs_size, b))
}

/// A filesystem of `size` bytes can be made: the size is a whole number of
/// blocks, and the metadata and the root directory's block fit.
pub open spec fn can_make(size: u32) -> bool {
    size % BLOCK_SIZE == 0 && meta_blocks((size / BLOCK_SIZE) as int) + 1 <= size / BLOCK_SIZE
}

/// The byte of a new bitmap for the blocks from `base`; see `fresh_bits`.
fn bits_byte(used: u64, base: u64) -> (r: u8)
    requires
        base + 8 <= u64::MAX,
    ensures
        r == fresh_bits(used as int, base as int),
{
    if base + 8 <= used {
        0xff
    } else if used <= base {
        0
    } else {
        let k: u16 = (used - base) as u16;
        assert(0 < k < 8);
        assert((1u16 << k) - 1 < 256 && (1u16 << k) >= 1) by (bit_vector)
            requires
                0 < k < 8,
        ;
        (((1u16 << k) - 1) as u8)
    }
}

/// Block `b` of a new filesystem; see `fresh_block`.
fn make_block(fs_size: u32, sb: &SuperBlock, start: u32, b: u32) -> (r: [u8; 512])
    requires
        *sb == fresh_superblock(fs_size),
        start == meta_blocks(fs_size as int),
        start + 1 <= fs_size,
        b < fs_size,
    ensures
        r@ == fresh_block(fs_size, b as int),
{
    let mut blk = [0u8; 512];
    assert(blk@ =~= zero_block());
    if b == SB_BLOCK {
        sb.store(&mut blk, 0);
    } else if b == sb.inodestart {
        let mut root = DiskInode::default();
        root.ftype = 2;
        root.nlink = 1;
        root.size = 64;
        root.addrs[0] = start;
        assert(root@.addrs =~= root_dinode(fs_size as int).addrs);
        root.store(&mut blk, 64);
    } else if sb.bmapstart <= b && b < start {
        let base0: u64 = (b - sb.bmapstart) as u64 * (BPB as u64);
        let mut j: usize = 0;
        while j < 512
            invariant
                j <= 512,
                base0 == (b - sb.bmapstart) * BPB,
                base0 <= u32::MAX,
                start + 1 <= u32::MAX,
                forall|i: int|
                    0 <= i < j ==> blk@[i] == fresh_bits(start + 1, base0 as int + i * 8),
            decreases 512 - j,
        {
            blk[j] = bits_byte(start as u64 + 1, base0 + (j as u64) * 8);
            j = j + 1;
        }
        assert(blk@ =~= fresh_block(fs_size, b as int));
    } else if b == start {
        let mut dot = DirEntry::default();
        dot.inum = ROOTINO;
        dot.name[0] = crate::path::DOT;
        let mut dotdot = DirEntry::default();
        dotdot.inum = ROOTINO;
        dotdot.name[0] = crate::path::DOT;
        dotdot.name[1] = crate::path::DOT;
        assert(dot@.name =~= padded(dot_name(), 28));
        assert(dotdot@.name =~= padded(dotdot_name(), 28));
        dot.store(&mut blk, 0);
        dotdot.store(&mut blk, 32);
    }
    blk
}

/// Makes a filesystem of `size` bytes on the device; see `fresh_image`.
/// Fails, and writes nothing, if no filesystem of that size can be made or
/// the device is smaller.
pub fn mkfs<D: BlockDevice>(dev: &mut D, size: u32) -> (r: Result<(), FsError>)
    requires
        image_wf(old(dev).image()),
    ensures
        r is Ok <==> can_make(size) && size / BLOCK_SIZE <= old(dev).image().len(),
        r is Ok ==> final(dev).image().len() == old(dev).image().len() && final(dev).image().take((size / BLOCK_SIZE) as int) == fresh_image(size / BLOCK_SIZE) && forall|
            b: int,
        |
            size / BLOCK_SIZE <= b < old(dev).image().len() ==> final(dev).image()[b] == old(
                dev,
            ).image()[b],
        r is Err ==> final(dev).image() == old(dev).image(),
        r matches Err(e) ==> e == (if size % BLOCK_SIZE != 0 {
            FsError::Corrupt
        } else {
            FsError::NoBlocks
        }),
        image_wf(final(dev).image()),
{
    if size % BLOCK_SIZE != 0 {
        return Err(FsError::Corrupt);
    }
    let fs_size = size / BLOCK_SIZE;
    let nbitmap = (fs_size + BPB - 1) / BPB;
    let ninodeblocks = NINODES / IPB;
    let nlog = LOGSIZE;
    let nmeta = 2 + nlog + ninodeblocks + nbitmap;
    if nmeta + 1 > fs_size || fs_size > dev.block_count() {
        return Err(FsError::NoBlocks);
    }
    let sb = SuperBlock {
        magic: FATPIGEORZMAGIC,
        size: fs_size,
        nblocks: fs_size - nmeta,
        ninodes: NINODES,
        nlog,
        logstart: 2,
        inodestart: 2 + nlog,
        bmapstart: 2 + nlog + ninodeblocks,
    };
    let mut b: u32 = 0;
    while b < fs_size
        invariant
            b <= fs_size,
            fs_size == size / BLOCK_SIZE,
            sb == fresh_superblock(fs_size),
            nmeta == meta_blocks(fs_size as int),
            nmeta + 1 <= fs_size,
            fs_size <= old(dev).image().len(),
            image_wf(dev.image()),
            dev.image().len() == old(dev).image().len(),
            forall|c: int| 0 <= c < b ==> dev.image()[c] == fresh_block(fs_size, c),
            forall|c: int| b <= c < dev.image().len() ==> dev.image()[c] == old(dev).image()[c],
        decreases fs_size - b,
    {
        let blk = make_block(fs_size, &sb, nmeta, b);
        dev.write_block(b, &blk);
        b = b + 1;
    }
    assert(dev.image().take(fs_size as int) =~= fresh_image(fs_size));
    Ok(())
}

/// The layout of a new filesystem is in order.
pub proof fn lemma_fresh_layout(fs_size: u32)
    requires
        meta_blocks(fs_size as int) + 1 <= fs_size,
    ensures
        fresh_superblock(fs_size).layout_ok(),
        fresh_superblock(fs_size).data_start() == meta_blocks(fs_size as int),
{
}

/// A new filesystem can be mounted, and its superblock is the one that it
/// was made with.
pub proof fn lemma_fresh_mountable(fs_size: u32)
    requires
        meta_blocks(fs_size as int) + 1 <= fs_size,
    ensures
        mountable(fresh_image(fs_size)),
        SuperBlock::decode(fresh_image(fs_size)[1], 0) == fresh_superblock(fs_size),
{
    let sb = fresh_superblock(fs_size);
    lemma_fresh_layout(fs_size);
    SuperBlock::lemma_codec(sb, zero_block(), 0);
    let img = fresh_image(fs_size);
    assert(img[1] == SuperBlock::encode(sb, zero_block(), 0));
    assert(img[2] == zero_block());
    assert(le32(zero_block(), 0) == 0);
}

/// The root directory of a new filesystem is inode 1: a directory named
/// once, which has the entry `.` at offset 0 and the entry `..` at offset
/// 32, both for itself.
pub proof fn lemma_fresh_root(fs_size: u32)
    requires
        meta_blocks(fs_size as int) + 1 <= fs_size,
    ensures
        ({
            let img = fresh_image(fs_size);
            let sb = fresh_superblock(fs_size);
            let root = dinode_at(img, sb, ROOTINO as int);
            &&& root == root_dinode(fs_size as int)
            &&& entry_at(img, sb, root, 0) == Ok::<DirEntryView, FsError>(
                DirEntryView { inum: ROOTINO, name: padded(dot_name(), 28) },
            )
            &&& entry_at(img, sb, root, 32) == Ok::<DirEntryView, FsError>(
                DirEntryView { inum: ROOTINO, name: padded(dotdot_name(), 28) },
            )
        }),
{
    let img = fresh_image(fs_size);
    let sb = fresh_superblock(fs_size);
    let start = meta_blocks(fs_size as int);
    lemma_fresh_layout(fs_size);
    let rd = root_dinode(fs_size as int);
    DiskInode::lemma_codec(rd, zero_block(), 64);
    assert(inode_block(sb, ROOTINO as int) == sb.inodestart);
    assert(inode_offset(ROOTINO as int) == 64);
    assert(img[sb.inodestart as int] == DiskInode::encode(rd, zero_block(), 64));
    let root = dinode_at(img, sb, ROOTINO as int);
    assert(root == rd);
    let dot = DirEntryView { inum: ROOTINO, name: padded(dot_name(), 28) };
    let dotdot = DirEntryView { inum: ROOTINO, name: padded(dotdot_name(), 28) };
    let b1 = DirEntry::encode(dot, zero_block(), 0);
    let b2 = DirEntry::encode(dotdot, b1, 32);
    DirEntry::lemma_codec(dot, zero_block(), 0);
    DirEntry::lemma_codec(dotdot, b1, 32);
    assert(img[start] == b2);
    assert(mapped_spec(img, sb, root, 0) == Ok::<u32, FsError>(start as u32));
    lemma_le32_same(b2, b1, 0);
    assert(b2.subrange(4, 32) =~= b1.subrange(4, 32));
    assert(DirEntry::decode(b2, 0) == dot);
}

proof fn lemma_low_bits(k: u16, j: u8)
    by (bit_vector)
    requires
        0 < k < 8,
        j < 8,
    ensures
        ((((1u16 << k) - 1) as u8) & (1u8 << j) != 0) == ((j as u16) < k),
        (0xffu8 & (1u8 << j)) != 0,
        (0u8 & (1u8 << j)) == 0,
{
}

/// The bitmap of a new filesystem marks the metadata blocks and the block
/// of the root directory as used, and no other block.
pub proof fn lemma_fresh_bitmap(fs_size: u32, b: int)
    requires
        meta_blocks(fs_size as int) + 1 <= fs_size,
        0 <= b < fs_size,
    ensures
        is_used(fresh_image(fs_size), fresh_superblock(fs_size), b) == (b <= meta_blocks(
            fs_size as int,
        )),
{
    let img = fresh_image(fs_size);
    let sb = fresh_superblock(fs_size);
    let start = meta_blocks(fs_size as int);
    lemma_fresh_layout(fs_size);
    let bb = bitmap_block(sb, b);
    assert(sb.bmapstart <= bb < start);
    let j = bitmap_byte(b);
    assert(0 <= j < 512);
    let base = (bb - sb.bmapstart) * BPB + j * 8;
    assert(BPB == 4096);
    assert(base == b - b % 8) by {
        assert(b == 4096 * (b / 4096) + b % 4096);
        assert(b % 4096 == 8 * ((b % 4096) / 8) + (b % 4096) % 8);
        assert((b % 4096) % 8 == b % 8);
    }
    let byte = img[bb][j];
    assert(byte == fresh_bits(start + 1, base));
    let used = start + 1;
    let bit = (b % 8) as u8;
    if base + 8 <= used {
        lemma_low_bits(1, bit);
    } else if used <= base {
        lemma_low_bits(1, bit);
    } else {
        lemma_low_bits((used - base) as u16, bit);
    }
}

} // verus!
