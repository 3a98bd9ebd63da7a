//! Layout constants, the error type, and the block-device interface.
//!
//! Disk layout:
//! `[ boot block | super block | log | inode blocks | free bit map | data blocks ]`

use vstd::prelude::*;

verus! {

/// Block number of the superblock.
pub const SB_BLOCK: u32 = 1;

/// Bytes per block.
pub const BLOCK_SIZE: u32 = 512;

/// Bitmap bits per block.
pub const BPB: u32 = BLOCK_SIZE * 8;

/// The number by which a superblock is known.
pub const FATPIGEORZMAGIC: u32 = 0x14451100;

/// Inode number of the root directory.
pub const ROOTINO: u32 = 1;

/// Direct block slots in an inode; with it a `DiskInode` takes 64 bytes.
pub const NDIRECT: u32 = 12;

/// Bytes of a directory entry's name; with it a `DirEntry` takes 32 bytes.
pub const NAMESIZE: u32 = 28;

/// Block numbers held by one indirect block.
pub const NINDIRECT: u32 = BLOCK_SIZE / 4;

/// Largest file, in blocks.
pub const MAXFILE: u32 = NDIRECT + NINDIRECT;

/// Shards of the buffer cache.
pub const SHARD_NUM: u32 = 4;

/// Most blocks one filesystem operation is expected to write.
pub const MAXOPBLOCKS: u32 = 16;

/// Blocks of the on-disk log: the header and the body.
pub const LOGSIZE: u32 = MAXOPBLOCKS * 4 + 1;

/// Blocks of the log body.
pub const LOG_BODY_LEN: u32 = LOGSIZE - 1;

/// Buffers of the cache. A shard holds `LOGSIZE` of them, one more than the
/// log can pin, so a shard always has a buffer left to load a block into.
pub const BLOCK_NUM: u32 = LOGSIZE * SHARD_NUM;

/// Inodes of a new filesystem.
pub const NINODES: u32 = 1024;

/// Bytes of an on-disk inode.
pub const DINODE_SIZE: u32 = 64;

/// Bytes of a directory entry.
pub const DIRENT_SIZE: u32 = 32;

/// Inodes per block.
pub const IPB: u32 = BLOCK_SIZE / DINODE_SIZE;

/// Slots of the open-file table.
pub const NFILE: u32 = 100;

/// The type of an inode: not in use, a file, or a directory.
#[derive(Debug, Copy, Clone, PartialEq, Eq, Structural)]
pub enum FileType {
    Free,
    File,
    Dir,
}

impl FileType {
    /// The on-disk code of the type.
    pub open spec fn code(self) -> u16 {
        match self {
            FileType::Free => 0,
            FileType::File => 1,
            FileType::Dir => 2,
        }
    }

    /// The on-disk code of the type.
    pub fn to_u16(self) -> (c: u16)
        ensures
            c == self.code(),
    {
        match self {
            FileType::Free => 0,
            FileType::File => 1,
            FileType::Dir => 2,
        }
    }

    /// The type with the given on-disk code, if the code is one.
    pub fn from_u16(c: u16) -> (t: Option<FileType>)
        ensures
            c <= 2 <==> t is Some,
            t matches Some(ft) ==> ft.code() == c,
    {
        if c == 0 {
            Some(FileType::Free)
        } else if c == 1 {
            Some(FileType::File)
        } else if c == 2 {
            Some(FileType::Dir)
        } else {
            None
        }
    }

    /// The name of the type, as it is printed.
    pub fn name(&self) -> (s: String)
        ensures
            s@ == (match *self {
                FileType::Free => "Free"@,
                FileType::File => "File"@,
                FileType::Dir => "Dir"@,
            }),
    {
        match self {
            FileType::Free => "Free".to_owned(),
            FileType::File => "File".to_owned(),
            FileType::Dir => "Dir".to_owned(),
        }
    }
}

impl Default for FileType {
    fn default() -> (t: FileType)
        ensures
            t == FileType::Free,
    {
        FileType::Free
    }
}

/// Why an operation did not succeed.
#[derive(Debug, Copy, Clone, PartialEq, Eq, Structural)]
pub enum FsError {
    /// A path component or a directory entry does not exist.
    NotFound,
    /// The name exists already, with another type.
    AlreadyExists,
    /// The inode is a directory and the operation is for files.
    IsADirectory,
    /// A path component that must be a directory is not one.
    NotADirectory,
    /// Every on-disk inode is in use.
    NoInodes,
    /// Every block is in use.
    NoBlocks,
    /// The name does not fit a directory entry.
    NameTooLong,
    /// What was read from the disk breaks the layout's rules.
    Corrupt,
    /// The open transaction has no room for another block.
    LogFull,
    /// The log admits no operation now: the caller has to wait until one
    /// has ended.
    Busy,
    /// The directory cannot be named by one more entry.
    TooManyLinks,
    /// Every slot of an in-memory table is taken.
    TableFull,
    /// The open file does not allow the operation.
    BadMode,
    /// The handle is not valid: it was not given out, or was given back.
    BadHandle,
}

/// A disk image: its blocks in order, each a sequence of bytes.
pub type Image = Seq<Seq<u8>>;

/// Every block of the image holds `BLOCK_SIZE` bytes, and the number of
/// blocks fits a `u32`.
pub open spec fn image_wf(img: Image) -> bool {
    &&& img.len() <= u32::MAX
    &&& forall|i: int| 0 <= i < img.len() ==> (#[trigger] img[i]).len() == BLOCK_SIZE
}

/// A device of fixed-size blocks that are read and written whole.
///
/// An implementation is trusted to keep what it was last told to write.
pub trait BlockDevice {
    /// The blocks that the device holds now.
    open spec fn image(&self) -> Image {
        arbitrary()
    }

    /// The number of blocks of the device.
    fn block_count(&self) -> (n: u32)
        requires
            image_wf(self.image()),
        ensures
            n == self.image().len(),
    ;

    fn read_block(&self, block_id: u32, buf: &mut [u8; 512])
        requires
            image_wf(self.image()),
            block_id < self.image().len(),
        ensures
            final(buf)@ == self.image()[block_id as int],
    ;

    fn write_block(&mut self, block_id: u32, buf: &[u8; 512])
        requires
            image_wf(old(self).image()),
            block_id < old(self).image().len(),
        ensures
            final(self).image() == old(self).image().update(block_id as int, buf@),
    ;
}

/// One write to a device: the block and the bytes.
pub type DiskWrite = (int, Seq<u8>);

/// The image after the writes, applied in order.
pub open spec fn apply_writes(img: Image, writes: Seq<DiskWrite>) -> Image
    decreases writes.len(),
{
    if writes.len() == 0 {
        img
    } else {
        apply_writes(img, writes.drop_last()).update(writes.last().0, writes.last().1)
    }
}

/// A device together with the record of every write made through this
/// value since it was created. The record exists only in proofs.
pub struct Disk<D: BlockDevice> {
    pub dev: D,
    pub history: Ghost<Seq<DiskWrite>>,
}

impl<D: BlockDevice> Disk<D> {
    /// What the device holds.
    pub open spec fn image(&self) -> Image {
        self.dev.image()
    }

    /// The writes made so far, oldest first.
    pub open spec fn writes(&self) -> Seq<DiskWrite> {
        self.history@
    }

    /// Every block of the device has 512 bytes.
    pub open spec fn wf(&self) -> bool {
        image_wf(self.dev.image())
    }

    /// The device, with no write made so far.
    pub fn new(dev: D) -> (d: Disk<D>)
        ensures
            d.dev == dev,
            d.writes() == Seq::<DiskWrite>::empty(),
    {
        Disk { dev, history: Ghost(Seq::empty()) }
    }

    /// Gives the device back.
    pub fn into_inner(self) -> (dev: D)
        ensures
            dev == self.dev,
    {
        self.dev
    }

    /// The number of blocks of the device.
    pub fn block_count(&self) -> (n: u32)
        requires
            self.wf(),
        ensures
            n == self.image().len(),
    {
        self.dev.block_count()
    }

    /// Reads block `block_id` into `buf`.
    pub fn read(&self, block_id: u32, buf: &mut [u8; 512])
        requires
            self.wf(),
            block_id < self.image().len(),
        ensures
            final(buf)@ == self.image()[block_id as int],
    {
        self.dev.read_block(block_id, buf)
    }

    /// Writes `buf` as block `block_id`, and takes note of the write.
    pub fn write(&mut self, block_id: u32, buf: &[u8; 512])
        requires
            old(self).wf(),
            block_id < old(self).image().len(),
        ensures
            final(self).wf(),
            final(self).image() == old(self).image().update(block_id as int, buf@),
            final(self).image().len() == old(self).image().len(),
            final(self).writes() == old(self).writes().push((block_id as int, buf@)),
    {
        self.dev.write_block(block_id, buf);
        proof {
            self.history@ = self.history@.push((block_id as int, buf@));
        }
    }
}

} // verus!
