//! The block allocator: one bit per block of the image, set while the block
//! is in use. The bits stand in the bitmap blocks, the lowest bit of a byte
//! first.

use vstd::prelude::*;
use crate::fs::{image_wf, BlockDevice, FsError, Image, BPB};
use crate::superblock::SuperBlock;
use crate::volume::{bwrite_spec, VolState, Volume};

verus! {

/// The block of the image that holds the bit of block `b`.
pub open spec fn bitmap_block(sb: SuperBlock, b: int) -> int {
    sb.bmapstart + b / (BPB as int)
}

/// The byte of its bitmap block that holds the bit of block `b`.
pub open spec fn bitmap_byte(b: int) -> int {
    (b % (BPB as int)) / 8
}

/// The bit of block `b` within its byte.
pub open spec fn mask(b: int) -> u8 {
    1u8 << ((b % 8) as u8)
}

/// Whether the bitmap of the image says that block `b` is in use.
pub open spec fn is_used(img: Image, sb: SuperBlock, b: int) -> bool {
    img[bitmap_block(sb, b)][bitmap_byte(b)] & mask(b) != 0
}

/// The image with the bit of block `b` set.
pub open spec fn mark_used(img: Image, sb: SuperBlock, b: int) -> Image {
    let blk = img[bitmap_block(sb, b)];
    img.update(bitmap_block(sb, b), blk.update(bitmap_byte(b), blk[bitmap_byte(b)] | mask(b)))
}

/// The image with the bit of block `b` cleared.
pub open spec fn mark_free(img: Image, sb: SuperBlock, b: int) -> Image {
    let blk = img[bitmap_block(sb, b)];
    img.update(bitmap_block(sb, b), blk.update(bitmap_byte(b), blk[bitmap_byte(b)] & !mask(b)))
}

/// A block of zeros.
pub open spec fn zero_block() -> Seq<u8> {
    Seq::new(512, |i: int| 0u8)
}

/// Block `b` is a block of the data area.
pub open spec fn is_data_block(sb: SuperBlock, b: int) -> bool {
    sb.data_start() <= b < sb.size
}

/// The bitmap block of a block of the image is one of the bitmap blocks,
/// which lie between the inode blocks and the data area.
pub proof fn lemma_bitmap_block_range(sb: SuperBlock, b: int)
    requires
        sb.layout_ok(),
        0 <= b < sb.size,
    ensures
        sb.bmapstart <= bitmap_block(sb, b) < sb.data_start(),
        sb.inodestart <= bitmap_block(sb, b),
        0 <= bitmap_byte(b) < 512,
        0 <= b % 8 < 8,
{
}

proof fn lemma_bits(x: u8, j: u8, k: u8)
    by (bit_vector)
    requires
        j < 8,
        k < 8,
    ensures
        (x | (1u8 << j)) & (1u8 << j) != 0,
        (x & !(1u8 << j)) & (1u8 << j) == 0,
        j != k ==> ((x | (1u8 << j)) & (1u8 << k) != 0) == (x & (1u8 << k) != 0),
        j != k ==> ((x & !(1u8 << j)) & (1u8 << k) != 0) == (x & (1u8 << k) != 0),
{
}

/// Two blocks with the same bitmap block and byte and the same bit within
/// the byte are the same block.
proof fn lemma_bit_place(b: int, c: int)
    requires
        0 <= b,
        0 <= c,
        b / (BPB as int) == c / (BPB as int),
        bitmap_byte(b) == bitmap_byte(c),
        b % 8 == c % 8,
    ensures
        b == c,
{
    assert(BPB == 4096);
    let rb = b % 4096;
    let rc = c % 4096;
    assert(b == 4096 * (b / 4096) + rb);
    assert(c == 4096 * (c / 4096) + rc);
    assert(rb / 8 == rc / 8);
    assert(rb % 8 == b % 8);
    assert(rc % 8 == c % 8);
    assert(rb == rc);
}

/// Marking a block as used sets its bit and no other bit, and leaves every
/// block but the bitmap block as it was.
pub proof fn lemma_mark_used(img: Image, sb: SuperBlock, b: int, c: int)
    requires
        sb.layout_ok(),
        sb.size <= img.len(),
        0 <= b < sb.size,
        0 <= c < sb.size,
        img[bitmap_block(sb, b)].len() == 512,
    ensures
        is_used(mark_used(img, sb, b), sb, b),
        c != b ==> is_used(mark_used(img, sb, b), sb, c) == is_used(img, sb, c),
{
    lemma_bitmap_block_range(sb, b);
    lemma_bitmap_block_range(sb, c);
    let j = (b % 8) as u8;
    let k = (c % 8) as u8;
    let x = img[bitmap_block(sb, b)][bitmap_byte(b)];
    lemma_bits(x, j, k);
    if c != b && bitmap_block(sb, b) == bitmap_block(sb, c) && bitmap_byte(b) == bitmap_byte(c) {
        if j == k {
            lemma_bit_place(b, c);
        }
    }
}

/// Marking a block as free clears its bit and no other bit.
pub proof fn lemma_mark_free(img: Image, sb: SuperBlock, b: int, c: int)
    requires
        sb.layout_ok(),
        sb.size <= img.len(),
        0 <= b < sb.size,
        0 <= c < sb.size,
        img[bitmap_block(sb, b)].len() == 512,
    ensures
        !is_used(mark_free(img, sb, b), sb, b),
        c != b ==> is_used(mark_free(img, sb, b), sb, c) == is_used(img, sb, c),
{
    lemma_bitmap_block_range(sb, b);
    lemma_bitmap_block_range(sb, c);
    let j = (b % 8) as u8;
    let k = (c % 8) as u8;
    let x = img[bitmap_block(sb, b)][bitmap_byte(b)];
    lemma_bits(x, j, k);
    if c != b && bitmap_block(sb, b) == bitmap_block(sb, c) && bitmap_byte(b) == bitmap_byte(c) {
        if j == k {
            lemma_bit_place(b, c);
        }
    }
}

/// Block `b` is the first block of the data area that the bitmap says is
/// free.
pub open spec fn is_first_free(img: Image, sb: SuperBlock, b: int) -> bool {
    &&& is_data_block(sb, b)
    &&& !is_used(img, sb, b)
    &&& forall|c: int| sb.data_start() <= c < b ==> is_used(img, sb, c)
}

/// The bitmap says that some block of the data area is free.
pub open spec fn has_free(img: Image, sb: SuperBlock) -> bool {
    exists|b: int| is_first_free(img, sb, b)
}

/// The first block of the data area that the bitmap says is free.
pub open spec fn first_free(img: Image, sb: SuperBlock) -> int {
    choose|b: int| is_first_free(img, sb, b)
}

/// A block before which every block of the data area is in use, and which is
/// free itself, is the first free block.
pub proof fn lemma_first_free(img: Image, sb: SuperBlock, b: int)
    requires
        is_first_free(img, sb, b),
    ensures
        has_free(img, sb),
        first_free(img, sb) == b,
{
    let c = first_free(img, sb);
    if c < b {
        assert(is_used(img, sb, c));
    } else if b < c {
        assert(is_used(img, sb, b));
    }
}

/// The bitmap block of block `b` with the bit of `b` set.
pub open spec fn marked_block(img: Image, sb: SuperBlock, b: int) -> Seq<u8> {
    let blk = img[bitmap_block(sb, b)];
    blk.update(bitmap_byte(b), blk[bitmap_byte(b)] | mask(b))
}

/// The bitmap block of block `b` with the bit of `b` cleared.
pub open spec fn cleared_block(img: Image, sb: SuperBlock, b: int) -> Seq<u8> {
    let blk = img[bitmap_block(sb, b)];
    blk.update(bitmap_byte(b), blk[bitmap_byte(b)] & !mask(b))
}

/// What allocating a block does. The first block of the data area that the
/// bitmap says is free is marked as used and filled with zeros, both as
/// part of the open transaction. Nothing changes if no block is free, or
/// if the transaction has no room for the blocks that it would have to
/// take in.
#[verifier::opaque]
pub open spec fn balloc_spec(st: VolState, sb: SuperBlock) -> (VolState, Result<u32, FsError>) {
    if !has_free(st.image, sb) {
        (st, Err(FsError::NoBlocks))
    } else {
        let b = first_free(st.image, sb);
        let bno = bitmap_block(sb, b);
        let need = (if st.logged.contains(bno as u32) {
            0int
        } else {
            1int
        }) + (if st.logged.contains(b as u32) {
            0int
        } else {
            1int
        });
        if need > st.room {
            (st, Err(FsError::LogFull))
        } else {
            let s1 = bwrite_spec(st, bno as u32, marked_block(st.image, sb, b)).0;
            let s2 = bwrite_spec(s1, b as u32, zero_block()).0;
            (s2, Ok(b as u32))
        }
    }
}

/// What freeing block `b` does: its bit is cleared as part of the open
/// transaction. Nothing changes if `b` is no block of the data area, if it
/// is free already, or if the transaction has no room for the bitmap
/// block.
#[verifier::opaque]
pub open spec fn block_free_spec(st: VolState, sb: SuperBlock, b: u32) -> (VolState, Result<
    (),
    FsError,
>) {
    if !is_data_block(sb, b as int) || !is_used(st.image, sb, b as int) {
        (st, Err(FsError::Corrupt))
    } else {
        bwrite_spec(st, bitmap_block(sb, b as int) as u32, cleared_block(st.image, sb, b as int))
    }
}

/// An allocation takes a block that was free and marks that block alone.
/// If allocating succeeds, then the block that it gives is a block of the
/// data area which the bitmap said was free and now says is in use; the
/// block is filled with zeros; and the bitmap says of every other block
/// what it said.
pub proof fn lemma_balloc_marks(st: VolState, sb: SuperBlock, c: int)
    requires
        sb.layout_ok(),
        sb.size <= st.image.len(),
        image_wf(st.image),
        balloc_spec(st, sb).1 is Ok,
        0 <= c < sb.size,
    ensures
        ({
            let s1 = balloc_spec(st, sb).0;
            let b = balloc_spec(st, sb).1->Ok_0;
            &&& is_data_block(sb, b as int)
            &&& !is_used(st.image, sb, b as int)
            &&& is_used(s1.image, sb, b as int)
            &&& s1.image[b as int] == zero_block()
            &&& c != b ==> is_used(s1.image, sb, c) == is_used(st.image, sb, c)
        }),
{
    reveal(balloc_spec);
    let b = first_free(st.image, sb);
    lemma_bitmap_block_range(sb, b);
    lemma_bitmap_block_range(sb, c);
    lemma_mark_used(st.image, sb, b, c);
    lemma_mark_used(st.image, sb, b, b);
    let marked = mark_used(st.image, sb, b);
    let s1 = balloc_spec(st, sb).0;
    assert(s1.image == marked.update(b, zero_block()));
}

/// What was part of the open transaction before an allocation is part of
/// it after.
pub proof fn lemma_balloc_keeps_logged(st: VolState, sb: SuperBlock, c: u32)
    requires
        st.logged.contains(c),
    ensures
        balloc_spec(st, sb).0.logged.contains(c),
{
    reveal(balloc_spec);
}

/// Whether the bitmap says that block `b` is in use.
pub fn block_used<D: BlockDevice>(vol: &mut Volume<D>, b: u32) -> (used: bool)
    requires
        old(vol).inv(),
        b < old(vol).sb.size,
    ensures
        final(vol).inv(),
        final(vol).stays(old(vol)),
        final(vol).state() == old(vol).state(),
        used == is_used(old(vol).image(), old(vol).sb, b as int),
{
    proof {
        lemma_bitmap_block_range(vol.sb, b as int);
    }
    let bno = vol.sb.bmapstart + b / BPB;
    let blk = vol.bread(bno);
    let byte = blk[((b % BPB) / 8) as usize];
    let m: u8 = 1u8 << ((b % 8) as u8);
    byte & m != 0
}

/// Allocates a block; see `balloc_spec`.
pub fn balloc<D: BlockDevice>(vol: &mut Volume<D>) -> (r: Result<u32, FsError>)
    requires
        old(vol).inv(),
        old(vol).in_txn(),
    ensures
        final(vol).inv(),
        final(vol).stays(old(vol)),
        (final(vol).state(), r) == balloc_spec(old(vol).state(), old(vol).sb),
        r matches Ok(b) ==> is_data_block(old(vol).sb, b as int) && final(vol).logged(b),
{
    let size = vol.sb.size;
    let bblocks: u32 = ((size as u64 + BPB as u64 - 1) / (BPB as u64)) as u32;
    let start: u32 = vol.sb.bmapstart + bblocks;
    let ghost img0 = vol.image();
    let ghost st0 = vol.state();
    let ghost sb = vol.sb;
    let mut b: u32 = start;
    proof {
        vol.lemma_stays_refl();
        reveal(balloc_spec);
    }
    while b < size
        invariant
            start <= b <= size,
            start == sb.data_start(),
            size == sb.size,
            sb == old(vol).sb,
            img0 == old(vol).image(),
            st0 == old(vol).state(),
            vol.inv(),
            vol.in_txn(),
            vol.stays(old(vol)),
            vol.state() == st0,
            forall|c: int| start <= c < b ==> is_used(img0, sb, c),
        decreases size - b,
    {
        proof {
            lemma_bitmap_block_range(sb, b as int);
        }
        let bno = vol.sb.bmapstart + b / BPB;
        let blk = vol.bread(bno);
        let idx = ((b % BPB) / 8) as usize;
        let byte = blk[idx];
        let m: u8 = 1u8 << ((b % 8) as u8);
        if byte & m == 0 {
            proof {
                reveal(balloc_spec);
                lemma_first_free(img0, sb, b as int);
            }
            let k1 = vol.is_logged(bno);
            let k2 = vol.is_logged(b);
            let need: u32 = (if k1 { 0u32 } else { 1u32 }) + (if k2 { 0u32 } else { 1u32 });
            if need > vol.log_room() {
                return Err(FsError::LogFull);
            }
            let mut marked = blk;
            marked[idx] = byte | m;
            let ghost v1 = *vol;
            let r1 = vol.bwrite(bno, &marked);
            let ghost v2 = *vol;
            let zeros = [0u8; 512];
            let r2 = vol.bwrite(b, &zeros);
            proof {
                assert(zeros@ =~= zero_block());
                assert(marked@ == marked_block(img0, sb, b as int));
                vol.lemma_stays_trans(&v2, &v1);
                vol.lemma_stays_trans(&v1, old(vol));
                assert(vol.state().logged.contains(b));
            }
            return Ok(b);
        }
        b = b + 1;
    }
    proof {
        reveal(balloc_spec);
        if has_free(img0, sb) {
            let c = first_free(img0, sb);
            assert(is_used(img0, sb, c));
        }
    }
    Err(FsError::NoBlocks)
}

/// Frees block `b`; see `block_free_spec`.
pub fn block_free<D: BlockDevice>(vol: &mut Volume<D>, b: u32) -> (r: Result<(), FsError>)
    requires
        old(vol).inv(),
        old(vol).in_txn(),
    ensures
        final(vol).inv(),
        final(vol).stays(old(vol)),
        (final(vol).state(), r) == block_free_spec(old(vol).state(), old(vol).sb, b),
{
    let size = vol.sb.size;
    let bblocks: u32 = ((size as u64 + BPB as u64 - 1) / (BPB as u64)) as u32;
    let start: u32 = vol.sb.bmapstart + bblocks;
    proof {
        reveal(block_free_spec);
    }
    if b < start || b >= size {
        proof {
            vol.lemma_stays_refl();
        }
        return Err(FsError::Corrupt);
    }
    proof {
        lemma_bitmap_block_range(vol.sb, b as int);
    }
    let bno = vol.sb.bmapstart + b / BPB;
    let blk = vol.bread(bno);
    let idx = ((b % BPB) / 8) as usize;
    let byte = blk[idx];
    let m: u8 = 1u8 << ((b % 8) as u8);
    if byte & m == 0 {
        return Err(FsError::Corrupt);
    }
    let mut cleared = blk;
    cleared[idx] = byte & !m;
    let ghost v1 = *vol;
    let r = vol.bwrite(bno, &cleared);
    proof {
        vol.lemma_stays_trans(&v1, old(vol));
    }
    r
}

/// A copy of the bitmap, as it was when it was taken.
#[derive(Debug)]
pub struct Bitmap {
    pub data: Vec<u8>,
}

impl Bitmap {
    /// Whether the copy says that block `b` is in use.
    pub open spec fn used(&self, b: int) -> bool {
        self.data@[b / 8] & mask(b) != 0
    }

    /// A copy that is not taken yet: it holds no bit.
    pub fn new() -> (bm: Bitmap)
        ensures
            bm.data@.len() == 0,
    {
        Bitmap { data: Vec::new() }
    }

    /// Takes the copy: one bit for each block of the image.
    pub fn init<D: BlockDevice>(&mut self, vol: &mut Volume<D>)
        requires
            old(vol).inv(),
        ensures
            final(vol).inv(),
            final(vol).stays(old(vol)),
            final(vol).state() == old(vol).state(),
            final(self).data@.len() * 8 >= old(vol).sb.size,
            forall|b: int|
                0 <= b < old(vol).sb.size ==> final(self).used(b) == is_used(
                    old(vol).image(),
                    old(vol).sb,
                    b,
                ),
    {
        let size = vol.sb.size;
        let bblocks: u32 = ((size as u64 + BPB as u64 - 1) / (BPB as u64)) as u32;
        let ghost img0 = vol.image();
        let ghost sb = vol.sb;
        self.data = Vec::new();
        let mut k: u32 = 0;
        proof {
            vol.lemma_stays_refl();
        }
        while k < bblocks
            invariant
                k <= bblocks,
                bblocks == sb.bitmap_blocks(),
                sb == old(vol).sb,
                img0 == old(vol).image(),
                vol.inv(),
                vol.stays(old(vol)),
                vol.state() == old(vol).state(),
                self.data@.len() == k * 512,
                forall|i: int|
                    0 <= i < k * 512 ==> self.data@[i] == img0[sb.bmapstart + i / 512][i % 512],
            decreases bblocks - k,
        {
            let blk = vol.bread(vol.sb.bmapstart + k);
            let mut i: usize = 0;
            while i < 512
                invariant
                    i <= 512,
                    k < bblocks,
                    bblocks == sb.bitmap_blocks(),
                    sb.layout_ok(),
                    blk@ == img0[sb.bmapstart + k],
                    self.data@.len() == k * 512 + i,
                    forall|j: int|
                        0 <= j < k * 512 + i ==> self.data@[j] == img0[sb.bmapstart + j / 512][j
                            % 512],
                decreases 512 - i,
            {
                self.data.push(blk[i]);
                i = i + 1;
            }
            k = k + 1;
        }
        proof {
            assert forall|b: int| 0 <= b < sb.size implies self.used(b) == is_used(
                img0,
                sb,
                b,
            ) by {
                let i = b / 8;
                assert(i / 512 == b / (BPB as int));
                assert(i % 512 == bitmap_byte(b));
            }
        }
    }

    /// Whether the copy says that block `b` is in use.
    pub fn is_set(&self, b: u32) -> (r: bool)
        requires
            b < self.data@.len() * 8,
        ensures
            r == self.used(b as int),
    {
        let byte = self.data[(b / 8) as usize];
        let m: u8 = 1u8 << ((b % 8) as u8);
        byte & m != 0
    }
}

} // verus!
