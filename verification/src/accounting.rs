//! The accounting of blocks: the bitmap marks as used the blocks of the
//! metadata and the blocks that the inodes in use hold, and no others; and
//! no block is held twice. This file states the rule and proves that the
//! operations on inodes keep it. On that ground it proves what the
//! operations do to the blocks: what an allocating map and a truncation
//! change, that a read gives back what was written, and that removing the
//! last name of an inode frees it.

use vstd::prelude::*;
use crate::bitmap::{
    balloc_spec, bitmap_block, block_free_spec, first_free, is_data_block, is_first_free,
    is_used,
    lemma_balloc_keeps_logged, lemma_balloc_marks, lemma_bitmap_block_range, marked_block,
    zero_block,
};
use crate::codec::{
    le16, le32, le32_seq, lemma_le32_put32, lemma_le32_same, put32, put_bytes, Record,
};
use crate::dir::{
    dir_link_spec, dir_scan, dir_unlink_spec, entry_at, entry_count, mapped_spec,
    resolve_parent_spec, resolve_spec, walk,
};
use crate::file::{mkdir_spec, open_inode_spec, OpenMode};
use crate::fs::{image_wf, BlockDevice, FileType, FsError, Image, MAXFILE, NDIRECT, ROOTINO};
use crate::inode::{
    blank_dinode, block_end, block_map_spec, blocks_of, can_map, content, content_byte,
    create_spec, dinode_at, dinode_block_with, dirlink_spec, dirunlink_spec, dot_name,
    dotdot_name, drop_contents_spec, drop_inode_spec, emptied_dinode, enter_spec, find_inode_spec,
    first_entries_spec, free_inode, free_list_spec, freed_dinode, fresh_dinode, get_inode_spec,
    indirect_map_spec, inode_alloc_spec, inode_block, inode_offset, is_first_free_inode,
    iwrite_spec, lemma_can_map, lemma_drop_inode_frees, lemma_free_list_clears,
    lemma_inode_block_range, lemma_reserve_list, linked_once_less, linked_once_more, make_spec,
    max_bytes, read_len, readable, release_spec, reserve_list_spec, rinode_spec, slot_of, span,
    table_has, truncate_spec, undo_spec, unlink_entry_spec, unlink_spec, winode_spec, with_addr,
    without_blocks, write_steps, DiskInode, DiskInodeView, Inode, InodePtr,
};
use crate::log::{recovered, same_outside_log};
use crate::mkfs::{
    fresh_image, fresh_superblock, lemma_fresh_bitmap, lemma_fresh_layout, lemma_fresh_root,
    meta_blocks, root_dinode,
};
use crate::superblock::SuperBlock;
use crate::volume::{bwrite_spec, mountable, reserve_spec, VolState, Volume};

verus! {

/// The number of places in which an inode can hold a block: the direct
/// blocks, the indirect block, and the blocks that the indirect block
/// names.
pub open spec fn places() -> int {
    141
}

/// The block that an inode holds in place `k`, or 0 if it holds none
/// there. The places behind the indirect block are those of the blocks
/// that the indirect block names.
pub open spec fn held_at(img: Image, d: DiskInodeView, k: int) -> u32 {
    if k < 13 {
        d.addrs[k]
    } else if d.addrs[12] == 0 {
        0
    } else {
        le32(img[d.addrs[12] as int], 4 * (k - 13))
    }
}

/// The inode `i` as the image holds it, but for inode `i0`, which is taken
/// to be `d0`: the inode that an operation is working on and has not yet
/// written back.
pub open spec fn inode_in(img: Image, sb: SuperBlock, i0: int, d0: DiskInodeView, i: int) -> DiskInodeView {
    if i == i0 {
        d0
    } else {
        dinode_at(img, sb, i)
    }
}

/// Inode `i` is an inode of the volume that is in use.
pub open spec fn in_use(img: Image, sb: SuperBlock, i0: int, d0: DiskInodeView, i: int) -> bool {
    1 <= i < sb.ninodes && inode_in(img, sb, i0, d0, i).ftype != 0
}

/// The block that inode `i` holds in place `k`.
pub open spec fn holding(img: Image, sb: SuperBlock, i0: int, d0: DiskInodeView, i: int, k: int) -> u32 {
    held_at(img, inode_in(img, sb, i0, d0, i), k)
}

/// The image and the superblock fit together.
pub open spec fn ready(img: Image, sb: SuperBlock) -> bool {
    &&& image_wf(img)
    &&& sb.layout_ok()
    &&& sb.size <= img.len()
}

/// The blocks are accounted for, where inode `i0` is taken to be `d0`:
/// the bitmap marks the metadata blocks as used; what an inode in use
/// holds is a block of the data area that the bitmap marks as used; no
/// block is held in two places; and every block of the data area that the
/// bitmap marks as used is held by an inode in use.
pub open spec fn accounted_with(img: Image, sb: SuperBlock, i0: int, d0: DiskInodeView) -> bool {
    &&& d0.addrs.len() == 13
    &&& forall|b: int| 0 <= b < sb.data_start() ==> #[trigger] is_used(img, sb, b)
    &&& forall|i: int, k: int|
        in_use(img, sb, i0, d0, i) && 0 <= k < places() && #[trigger] holding(
            img,
            sb,
            i0,
            d0,
            i,
            k,
        ) != 0 ==> is_data_block(sb, holding(img, sb, i0, d0, i, k) as int) && is_used(
            img,
            sb,
            holding(img, sb, i0, d0, i, k) as int,
        )
    &&& forall|i: int, k: int, j: int, l: int|
        in_use(img, sb, i0, d0, i) && in_use(img, sb, i0, d0, j) && 0 <= k < places() && 0 <= l
            < places() && #[trigger] holding(img, sb, i0, d0, i, k) != 0 && holding(
            img,
            sb,
            i0,
            d0,
            i,
            k,
        ) == #[trigger] holding(img, sb, i0, d0, j, l) ==> i == j && k == l
    &&& forall|b: int|
        is_data_block(sb, b) && #[trigger] is_used(img, sb, b) ==> exists|i: int, k: int|
            in_use(img, sb, i0, d0, i) && 0 <= k < places() && #[trigger] holding(
                img,
                sb,
                i0,
                d0,
                i,
                k,
            ) == b
}

/// The blocks are accounted for: the bitmap marks as used the metadata
/// blocks and the blocks that the inodes in use hold, directly, behind an
/// indirect block, or as an indirect block, and no other block; and no
/// block is held in two places.
pub open spec fn accounted(img: Image, sb: SuperBlock) -> bool {
    accounted_with(img, sb, 0, dinode_at(img, sb, 0))
}

/// The on-disk inode at an offset depends on its 64 bytes alone.
pub proof fn lemma_dinode_same(s: Seq<u8>, t: Seq<u8>, off: int)
    requires
        forall|i: int| off <= i < off + 64 ==> s[i] == t[i],
    ensures
        DiskInode::decode(s, off) == DiskInode::decode(t, off),
{
    lemma_le32_same(s, t, off);
    lemma_le32_same(s, t, off + 8);
    assert(le16(s, off + 4) == le16(t, off + 4));
    assert(le16(s, off + 6) == le16(t, off + 6));
    assert forall|k: int| 0 <= k < 13 implies #[trigger] le32_seq(s, off + 12, 13)[k]
        == le32_seq(t, off + 12, 13)[k] by {
        lemma_le32_same(s, t, off + 12 + 4 * k);
    }
    assert(le32_seq(s, off + 12, 13) =~= le32_seq(t, off + 12, 13));
}

/// Writing an inode changes that inode and no other.
pub proof fn lemma_write_dinode(img: Image, sb: SuperBlock, i0: int, d: DiskInodeView, j: int)
    requires
        ready(img, sb),
        0 <= i0 < sb.ninodes,
        0 <= j < sb.ninodes,
        d.addrs.len() == 13,
    ensures
        ({
            let img1 = img.update(inode_block(sb, i0), dinode_block_with(img, sb, i0, d));
            &&& image_wf(img1)
            &&& img1.len() == img.len()
            &&& dinode_at(img1, sb, i0) == d
            &&& j != i0 ==> dinode_at(img1, sb, j) == dinode_at(img, sb, j)
        }),
{
    lemma_inode_block_range(sb, i0);
    lemma_inode_block_range(sb, j);
    let blk = img[inode_block(sb, i0)];
    let nb = dinode_block_with(img, sb, i0, d);
    DiskInode::lemma_codec(d, blk, inode_offset(i0));
    let img1 = img.update(inode_block(sb, i0), nb);
    if j != i0 && inode_block(sb, j) == inode_block(sb, i0) {
        assert(inode_offset(j) != inode_offset(i0));
        assert(inode_offset(j) + 64 <= inode_offset(i0) || inode_offset(i0) + 64 <= inode_offset(
            j,
        ));
        lemma_dinode_same(nb, blk, inode_offset(j));
    }
}

/// Writing the inode that an operation has worked on makes the image
/// account for the blocks as the image with that inode did.
pub proof fn lemma_accounted_written(img: Image, sb: SuperBlock, i0: int, d: DiskInodeView)
    requires
        ready(img, sb),
        1 <= i0 < sb.ninodes,
        accounted_with(img, sb, i0, d),
    ensures
        accounted(img.update(inode_block(sb, i0), dinode_block_with(img, sb, i0, d)), sb),
        ready(img.update(inode_block(sb, i0), dinode_block_with(img, sb, i0, d)), sb),
{
    let ib = inode_block(sb, i0);
    let img1 = img.update(ib, dinode_block_with(img, sb, i0, d));
    let z = dinode_at(img1, sb, 0);
    lemma_inode_block_range(sb, i0);
    lemma_write_dinode(img, sb, i0, d, 0);
    // every inode and every place is as it was
    assert forall|i: int| 1 <= i < sb.ninodes implies inode_in(img1, sb, 0, z, i) == inode_in(
        img,
        sb,
        i0,
        d,
        i,
    ) by {
        lemma_write_dinode(img, sb, i0, d, i);
    }
    assert forall|i: int, k: int|
        in_use(img, sb, i0, d, i) && 0 <= k < places() implies #[trigger] holding(
        img1,
        sb,
        0,
        z,
        i,
        k,
    ) == holding(img, sb, i0, d, i, k) by {
        let di = inode_in(img, sb, i0, d, i);
        assert(inode_in(img1, sb, 0, z, i) == di);
        if di.addrs[12] != 0 {
            assert(holding(img, sb, i0, d, i, 12) == di.addrs[12]);
            assert(is_data_block(sb, di.addrs[12] as int));
        }
    }
    assert forall|b: int| 0 <= b < sb.size implies is_used(img1, sb, b) == is_used(
        img,
        sb,
        b,
    ) by {
        lemma_bitmap_block_range(sb, b);
    }
    lemma_accounted_same(img, sb, i0, d, img1, 0, z);
}

/// Two images with the same bitmap, the same inodes in use and the same
/// blocks in the same places account for the blocks alike.
pub proof fn lemma_accounted_same(
    img: Image,
    sb: SuperBlock,
    i0: int,
    d0: DiskInodeView,
    img1: Image,
    i1: int,
    d1: DiskInodeView,
)
    requires
        accounted_with(img, sb, i0, d0),
        d1.addrs.len() == 13,
        forall|b: int| 0 <= b < sb.size ==> is_used(img1, sb, b) == is_used(img, sb, b),
        forall|i: int|
            1 <= i < sb.ninodes ==> in_use(img1, sb, i1, d1, i) == in_use(img, sb, i0, d0, i),
        forall|i: int, k: int|
            in_use(img, sb, i0, d0, i) && 0 <= k < places() ==> #[trigger] holding(
                img1,
                sb,
                i1,
                d1,
                i,
                k,
            ) == holding(img, sb, i0, d0, i, k),
        sb.data_start() <= sb.size,
    ensures
        accounted_with(img1, sb, i1, d1),
{
    assert forall|i: int, k: int|
        in_use(img1, sb, i1, d1, i) && 0 <= k < places() && #[trigger] holding(
            img1,
            sb,
            i1,
            d1,
            i,
            k,
        ) != 0 implies is_data_block(sb, holding(img1, sb, i1, d1, i, k) as int) && is_used(
        img1,
        sb,
        holding(img1, sb, i1, d1, i, k) as int,
    ) by {
        assert(holding(img, sb, i0, d0, i, k) != 0);
    }
    assert forall|i: int, k: int, j: int, l: int|
        in_use(img1, sb, i1, d1, i) && in_use(img1, sb, i1, d1, j) && 0 <= k < places() && 0 <= l
            < places() && #[trigger] holding(img1, sb, i1, d1, i, k) != 0 && holding(
            img1,
            sb,
            i1,
            d1,
            i,
            k,
        ) == #[trigger] holding(img1, sb, i1, d1, j, l) implies i == j && k == l by {
        assert(holding(img, sb, i0, d0, i, k) == holding(img, sb, i0, d0, j, l));
    }
    assert forall|b: int| is_data_block(sb, b) && #[trigger] is_used(img1, sb, b) implies exists|
        i: int,
        k: int,
    |
        in_use(img1, sb, i1, d1, i) && 0 <= k < places() && #[trigger] holding(
            img1,
            sb,
            i1,
            d1,
            i,
            k,
        ) == b by {
        assert(is_used(img, sb, b));
        let (i, k) = choose|i: int, k: int|
            in_use(img, sb, i0, d0, i) && 0 <= k < places() && #[trigger] holding(
                img,
                sb,
                i0,
                d0,
                i,
                k,
            ) == b;
        assert(holding(img1, sb, i1, d1, i, k) == b);
    }
}

/// A block of the data area is no inode block and no bitmap block.
pub proof fn lemma_data_block_apart(sb: SuperBlock, p: int, i: int, c: int)
    requires
        sb.layout_ok(),
        is_data_block(sb, p),
        0 <= i < sb.ninodes,
        0 <= c < sb.size,
    ensures
        inode_block(sb, i) != p,
        bitmap_block(sb, c) != p,
{
    lemma_inode_block_range(sb, i);
    lemma_bitmap_block_range(sb, c);
}

/// Writing to a block that an inode holds as contents, directly or behind
/// its indirect block, leaves the accounting as it was.
pub proof fn lemma_data_write(
    img: Image,
    sb: SuperBlock,
    i0: int,
    d: DiskInodeView,
    k0: int,
    data: Seq<u8>,
)
    requires
        ready(img, sb),
        accounted_with(img, sb, i0, d),
        in_use(img, sb, i0, d, i0),
        0 <= k0 < places(),
        k0 != 12,
        holding(img, sb, i0, d, i0, k0) != 0,
        data.len() == 512,
    ensures
        accounted_with(img.update(holding(img, sb, i0, d, i0, k0) as int, data), sb, i0, d),
        ready(img.update(holding(img, sb, i0, d, i0, k0) as int, data), sb),
{
    let p = holding(img, sb, i0, d, i0, k0) as int;
    let img1 = img.update(p, data);
    assert(is_data_block(sb, p));
    assert forall|i: int| 1 <= i < sb.ninodes implies in_use(img1, sb, i0, d, i) == in_use(
        img,
        sb,
        i0,
        d,
        i,
    ) by {
        lemma_data_block_apart(sb, p, i, 0);
    }
    assert forall|i: int, k: int|
        in_use(img, sb, i0, d, i) && 0 <= k < places() implies #[trigger] holding(
        img1,
        sb,
        i0,
        d,
        i,
        k,
    ) == holding(img, sb, i0, d, i, k) by {
        lemma_data_block_apart(sb, p, i, 0);
        let di = inode_in(img, sb, i0, d, i);
        if di.addrs[12] != 0 {
            assert(holding(img, sb, i0, d, i, 12) == di.addrs[12]);
            assert(di.addrs[12] != p);
        }
    }
    assert forall|b: int| 0 <= b < sb.size implies is_used(img1, sb, b) == is_used(
        img,
        sb,
        b,
    ) by {
        lemma_data_block_apart(sb, p, 0, b);
    }
    lemma_accounted_same(img, sb, i0, d, img1, i0, d);
}

/// The accounting after an inode in use took a free block into an empty
/// place. Take two images, the second with the inode that is worked on
/// taken to be `d2`, such that the bitmap of the second marks block `b`,
/// which the first said was free, and else what the first marked; the
/// same inodes are in use; and the inodes hold in each place what they
/// held, but for the place `k0` of the inode, which was empty and holds
/// `b` now. If the first accounts for the blocks, so does the second.
pub proof fn lemma_accounted_extended(
    img: Image,
    sb: SuperBlock,
    i0: int,
    d: DiskInodeView,
    img2: Image,
    d2: DiskInodeView,
    k0: int,
    b: int,
)
    requires
        accounted_with(img, sb, i0, d),
        sb.data_start() <= sb.size,
        d2.addrs.len() == 13,
        in_use(img, sb, i0, d, i0),
        0 <= k0 < places(),
        holding(img, sb, i0, d, i0, k0) == 0,
        is_data_block(sb, b),
        !is_used(img, sb, b),
        forall|c: int| 0 <= c < sb.size ==> is_used(img2, sb, c) == (is_used(img, sb, c) || c == b),
        forall|i: int|
            1 <= i < sb.ninodes ==> in_use(img2, sb, i0, d2, i) == in_use(img, sb, i0, d, i),
        forall|i: int, k: int|
            in_use(img, sb, i0, d, i) && 0 <= k < places() ==> #[trigger] holding(
                img2,
                sb,
                i0,
                d2,
                i,
                k,
            ) == (if i == i0 && k == k0 {
                b as u32
            } else {
                holding(img, sb, i0, d, i, k)
            }),
    ensures
        accounted_with(img2, sb, i0, d2),
{
    assert forall|i: int, k: int|
        in_use(img2, sb, i0, d2, i) && 0 <= k < places() && #[trigger] holding(
            img2,
            sb,
            i0,
            d2,
            i,
            k,
        ) != 0 implies is_data_block(sb, holding(img2, sb, i0, d2, i, k) as int) && is_used(
        img2,
        sb,
        holding(img2, sb, i0, d2, i, k) as int,
    ) by {
        if !(i == i0 && k == k0) {
            assert(holding(img, sb, i0, d, i, k) != 0);
        }
    }
    assert forall|i: int, k: int, j: int, l: int|
        in_use(img2, sb, i0, d2, i) && in_use(img2, sb, i0, d2, j) && 0 <= k < places() && 0 <= l
            < places() && #[trigger] holding(img2, sb, i0, d2, i, k) != 0 && holding(
            img2,
            sb,
            i0,
            d2,
            i,
            k,
        ) == #[trigger] holding(img2, sb, i0, d2, j, l) implies i == j && k == l by {
        let new_i = i == i0 && k == k0;
        let new_j = j == i0 && l == k0;
        if new_i && !new_j {
            assert(holding(img, sb, i0, d, j, l) == b as u32);
            assert(is_used(img, sb, b));
        } else if !new_i && new_j {
            assert(holding(img, sb, i0, d, i, k) == b as u32);
            assert(is_used(img, sb, b));
        } else if !new_i && !new_j {
            assert(holding(img, sb, i0, d, i, k) == holding(img, sb, i0, d, j, l));
        }
    }
    assert forall|c: int| is_data_block(sb, c) && #[trigger] is_used(img2, sb, c) implies exists|
        i: int,
        k: int,
    |
        in_use(img2, sb, i0, d2, i) && 0 <= k < places() && #[trigger] holding(
            img2,
            sb,
            i0,
            d2,
            i,
            k,
        ) == c by {
        if c == b {
            assert(holding(img2, sb, i0, d2, i0, k0) == b as u32);
        } else {
            assert(is_used(img, sb, c));
            let (i, k) = choose|i: int, k: int|
                in_use(img, sb, i0, d, i) && 0 <= k < places() && #[trigger] holding(
                    img,
                    sb,
                    i0,
                    d,
                    i,
                    k,
                ) == c;
            assert(holding(img2, sb, i0, d2, i, k) == c);
        }
    }
}

/// The state `s1` follows the state `s0`: the image has the length that it
/// had, and what the open transaction held it holds.
pub open spec fn follows(s1: VolState, s0: VolState) -> bool {
    &&& s1.image.len() == s0.image.len()
    &&& forall|c: u32| s0.logged.contains(c) ==> s1.logged.contains(c)
}

/// What lies before the bitmap is the same in both images: the superblock,
/// the log and the inodes.
pub open spec fn keeps_low(s1: Image, s0: Image, sb: SuperBlock) -> bool {
    forall|b: int| 0 <= b < sb.bmapstart ==> #[trigger] s1[b] == s0[b]
}

/// Every block of the data area that the bitmap of `s0` marks as used is
/// the same in both images, but for the blocks in `but`.
pub open spec fn keeps_used(s1: Image, s0: Image, sb: SuperBlock, but: Set<int>) -> bool {
    forall|v: int|
        is_data_block(sb, v) && is_used(s0, sb, v) && !but.contains(v) ==> #[trigger] s1[v]
            == s0[v]
}

/// The two images differ in blocks of the bitmap at most.
pub open spec fn bitmap_apart(s1: Image, s0: Image, sb: SuperBlock) -> bool {
    forall|b: int|
        0 <= b < s0.len() && !(sb.bmapstart <= b < sb.data_start()) ==> #[trigger] s1[b] == s0[b]
}

/// What the bitmap of `s0` marks as used the bitmap of `s1` marks as used.
pub open spec fn stays_used(s1: Image, s0: Image, sb: SuperBlock) -> bool {
    forall|c: int| 0 <= c < sb.size && is_used(s0, sb, c) ==> #[trigger] is_used(s1, sb, c)
}

/// The blocks that the inode holds.
pub open spec fn own(img: Image, d: DiskInodeView) -> Set<int> {
    Set::new(|v: int| exists|k: int| 0 <= k < places() && #[trigger] held_at(img, d, k) == v)
}

/// What the inode `d1` holds in the image `s1` it held, as `d` in the image
/// `s0`, in the same place, or the bitmap of `s0` said it was free.
pub open spec fn grown(s1: Image, d1: DiskInodeView, s0: Image, d: DiskInodeView, sb: SuperBlock) -> bool {
    forall|k: int|
        0 <= k < places() ==> #[trigger] held_at(s1, d1, k) == held_at(s0, d, k) || (held_at(
            s0,
            d,
            k,
        ) == 0 && !is_used(s0, sb, held_at(s1, d1, k) as int))
}

/// What an allocation does to the image: the bitmap block of the new block
/// and the new block change, and nothing else.
pub proof fn lemma_balloc_image(st: VolState, sb: SuperBlock)
    requires
        ready(st.image, sb),
    ensures
        ({
            let (s1, r1) = balloc_spec(st, sb);
            &&& follows(s1, st)
            &&& ready(s1.image, sb)
            &&& r1 is Err ==> s1 == st
            &&& r1 matches Ok(b) ==> is_data_block(sb, b as int) && !is_used(st.image, sb, b as int)
                && s1.image[b as int] == zero_block() && s1.logged.contains(b) && forall|p: int|
                0 <= p < st.image.len() && p != b && p != bitmap_block(sb, b as int)
                    ==> #[trigger] s1.image[p] == st.image[p]
        }),
{
    reveal(balloc_spec);
    let (s1, r1) = balloc_spec(st, sb);
    if r1 is Ok {
        let b = first_free(st.image, sb);
        lemma_bitmap_block_range(sb, b);
        assert(marked_block(st.image, sb, b).len() == 512);
        assert(zero_block().len() == 512);
    }
}

/// Taking a new block into an empty direct place, or as the indirect
/// block, keeps the blocks accounted for.
pub proof fn lemma_alloc_direct(st: VolState, sb: SuperBlock, i0: int, d: DiskInodeView, k0: int)
    requires
        ready(st.image, sb),
        accounted_with(st.image, sb, i0, d),
        in_use(st.image, sb, i0, d, i0),
        0 <= k0 < 13,
        d.addrs[k0] == 0,
        balloc_spec(st, sb).1 is Ok,
    ensures
        ({
            let (s1, r1) = balloc_spec(st, sb);
            let b = r1->Ok_0;
            &&& accounted_with(s1.image, sb, i0, with_addr(d, k0, b))
            &&& in_use(s1.image, sb, i0, with_addr(d, k0, b), i0)
            &&& keeps_low(s1.image, st.image, sb)
            &&& keeps_used(s1.image, st.image, sb, Set::empty())
            &&& stays_used(s1.image, st.image, sb)
            &&& grown(s1.image, with_addr(d, k0, b), st.image, d, sb)
        }),
{
    let img = st.image;
    let (s1, r1) = balloc_spec(st, sb);
    let b = r1->Ok_0;
    let img1 = s1.image;
    let d2 = with_addr(d, k0, b);
    lemma_balloc_image(st, sb);
    assert forall|c: int| 0 <= c < sb.size implies is_used(img1, sb, c) == (is_used(img, sb, c)
        || c == b) by {
        lemma_balloc_marks(st, sb, c);
    }
    assert forall|i: int| 1 <= i < sb.ninodes implies in_use(img1, sb, i0, d2, i) == in_use(
        img,
        sb,
        i0,
        d,
        i,
    ) by {
        lemma_data_block_apart(sb, b as int, i, b as int);
        lemma_inode_block_range(sb, i);
        lemma_bitmap_block_range(sb, b as int);
    }
    assert forall|i: int, k: int|
        in_use(img, sb, i0, d, i) && 0 <= k < places() implies #[trigger] holding(
        img1,
        sb,
        i0,
        d2,
        i,
        k,
    ) == (if i == i0 && k == k0 {
        b
    } else {
        holding(img, sb, i0, d, i, k)
    }) by {
        lemma_inode_block_range(sb, i);
        lemma_bitmap_block_range(sb, b as int);
        let di = inode_in(img, sb, i0, d, i);
        let di2 = inode_in(img1, sb, i0, d2, i);
        if i != i0 {
            assert(di2 == di);
        }
        if k >= 13 {
            if i == i0 && k0 == 12 {
                assert(di2.addrs[12] == b);
                assert(le32(zero_block(), 4 * (k - 13)) == 0);
            } else {
                assert(di2.addrs[12] == di.addrs[12]);
                if di.addrs[12] != 0 {
                    assert(holding(img, sb, i0, d, i, 12) == di.addrs[12]);
                    assert(is_used(img, sb, di.addrs[12] as int));
                    assert(img1[di.addrs[12] as int] == img[di.addrs[12] as int]);
                }
            }
        }
    }
    assert(holding(img, sb, i0, d, i0, k0) == 0);
    lemma_accounted_extended(img, sb, i0, d, img1, d2, k0, b as int);
    assert forall|kk: int| 0 <= kk < places() implies #[trigger] held_at(img1, d2, kk) == held_at(
        img,
        d,
        kk,
    ) || (held_at(img, d, kk) == 0 && !is_used(img, sb, held_at(img1, d2, kk) as int)) by {
        assert(holding(img1, sb, i0, d2, i0, kk) == held_at(img1, d2, kk));
        assert(holding(img, sb, i0, d, i0, kk) == held_at(img, d, kk));
    }
    assert forall|bb: int| 0 <= bb < sb.bmapstart implies #[trigger] img1[bb] == img[bb] by {
        lemma_bitmap_block_range(sb, b as int);
    }
}

/// Looking up or taking a block behind the indirect block keeps the blocks
/// accounted for, and the block that it gives is the one that the inode
/// holds in that place afterwards.
pub proof fn lemma_indirect_map(st: VolState, sb: SuperBlock, i0: int, d: DiskInodeView, k: int)
    requires
        ready(st.image, sb),
        accounted_with(st.image, sb, i0, d),
        in_use(st.image, sb, i0, d, i0),
        d.addrs[12] != 0,
        0 <= k < 128,
    ensures
        ({
            let (s1, r1) = indirect_map_spec(st, sb, d.addrs[12], k);
            &&& follows(s1, st)
            &&& ready(s1.image, sb)
            &&& accounted_with(s1.image, sb, i0, d)
            &&& r1 matches Ok(p) ==> p != 0 && p == holding(s1.image, sb, i0, d, i0, 13 + k)
            &&& keeps_low(s1.image, st.image, sb)
            &&& keeps_used(s1.image, st.image, sb, set![d.addrs[12] as int])
            &&& stays_used(s1.image, st.image, sb)
            &&& grown(s1.image, d, st.image, d, sb)
        }),
{
    reveal(indirect_map_spec);
    let img = st.image;
    let ind = d.addrs[12];
    assert(holding(img, sb, i0, d, i0, 12) == ind);
    assert(is_data_block(sb, ind as int) && is_used(img, sb, ind as int));
    let a = le32(img[ind as int], 4 * k);
    assert(holding(img, sb, i0, d, i0, 13 + k) == a);
    if a != 0 {
    } else {
        let (sr, rr) = reserve_spec(st, ind);
        if rr is Ok {
            assert(sr.image == img);
            assert(sr.logged.contains(ind));
            lemma_balloc_image(sr, sb);
            let (s2, r2) = balloc_spec(sr, sb);
            if r2 is Ok {
                let b = r2->Ok_0;
                let img1 = s2.image;
                lemma_balloc_keeps_logged(sr, sb, ind);
                assert(b != ind);
                lemma_bitmap_block_range(sb, b as int);
                assert(img1[ind as int] == img[ind as int]);
                let nb = put32(img1[ind as int], 4 * k, b);
                lemma_le32_put32(img1[ind as int], 4 * k, b);
                let (s3, r3) = bwrite_spec(s2, ind, nb);
                assert(r3 is Ok);
                let img2 = s3.image;
                assert(img2 == img1.update(ind as int, nb));
                assert forall|c: int| 0 <= c < sb.size implies is_used(img2, sb, c) == (is_used(
                    img,
                    sb,
                    c,
                ) || c == b) by {
                    lemma_balloc_marks(sr, sb, c);
                    lemma_bitmap_block_range(sb, c);
                }
                assert forall|i: int| 1 <= i < sb.ninodes implies in_use(img2, sb, i0, d, i)
                    == in_use(img, sb, i0, d, i) by {
                    lemma_inode_block_range(sb, i);
                }
                assert forall|i: int, kk: int|
                    in_use(img, sb, i0, d, i) && 0 <= kk < places() implies #[trigger] holding(
                    img2,
                    sb,
                    i0,
                    d,
                    i,
                    kk,
                ) == (if i == i0 && kk == 13 + k {
                    b
                } else {
                    holding(img, sb, i0, d, i, kk)
                }) by {
                    lemma_inode_block_range(sb, i);
                    let di = inode_in(img, sb, i0, d, i);
                    assert(inode_in(img2, sb, i0, d, i) == di);
                    if kk >= 13 && di.addrs[12] != 0 {
                        assert(holding(img, sb, i0, d, i, 12) == di.addrs[12]);
                        assert(is_used(img, sb, di.addrs[12] as int));
                        if i == i0 {
                            if kk != 13 + k {
                                lemma_le32_same(nb, img1[ind as int], 4 * (kk - 13));
                            }
                        } else {
                            assert(di.addrs[12] != ind);
                            assert(img2[di.addrs[12] as int] == img[di.addrs[12] as int]);
                        }
                    }
                }
                lemma_accounted_extended(img, sb, i0, d, img2, d, 13 + k, b as int);
                assert forall|kk: int| 0 <= kk < places() implies #[trigger] held_at(img2, d, kk)
                    == held_at(img, d, kk) || (held_at(img, d, kk) == 0 && !is_used(
                    img,
                    sb,
                    held_at(img2, d, kk) as int,
                )) by {
                    assert(holding(img2, sb, i0, d, i0, kk) == held_at(img2, d, kk));
                    assert(holding(img, sb, i0, d, i0, kk) == held_at(img, d, kk));
                }
                assert forall|bb: int| 0 <= bb < sb.bmapstart implies #[trigger] img2[bb]
                    == img[bb] by {
                    lemma_bitmap_block_range(sb, b as int);
                }
            }
        }
    }
}

/// Two steps after one another keep what each of them keeps.
pub proof fn lemma_frames_trans(
    s0: Image,
    d0: DiskInodeView,
    s1: Image,
    d1: DiskInodeView,
    s2: Image,
    d2: DiskInodeView,
    sb: SuperBlock,
    but: Set<int>,
)
    requires
        sb.data_start() <= sb.size,
        keeps_low(s1, s0, sb),
        keeps_low(s2, s1, sb),
        stays_used(s1, s0, sb),
        stays_used(s2, s1, sb),
        grown(s1, d1, s0, d0, sb),
        grown(s2, d2, s1, d1, sb),
        keeps_used(s1, s0, sb, but),
        forall|v: int|
            is_data_block(sb, v) && is_used(s0, sb, v) && !but.contains(v) ==> #[trigger] s2[v]
                == s1[v],
        forall|k: int|
            0 <= k < places() && #[trigger] held_at(s2, d2, k) != 0 ==> is_data_block(
                sb,
                held_at(s2, d2, k) as int,
            ),
    ensures
        keeps_low(s2, s0, sb),
        stays_used(s2, s0, sb),
        grown(s2, d2, s0, d0, sb),
        keeps_used(s2, s0, sb, but),
{
    assert forall|c: int| 0 <= c < sb.size && is_used(s0, sb, c) implies #[trigger] is_used(
        s2,
        sb,
        c,
    ) by {
        assert(is_used(s1, sb, c));
    }
    assert forall|k: int| 0 <= k < places() implies #[trigger] held_at(s2, d2, k) == held_at(
        s0,
        d0,
        k,
    ) || (held_at(s0, d0, k) == 0 && !is_used(s0, sb, held_at(s2, d2, k) as int)) by {
        let h0 = held_at(s0, d0, k);
        let h1 = held_at(s1, d1, k);
        let h2 = held_at(s2, d2, k);
        if h2 != h1 {
            assert(h1 == 0 && !is_used(s1, sb, h2 as int));
            assert(h0 == 0);
            if h2 != 0 {
                assert(is_data_block(sb, h2 as int));
                if is_used(s0, sb, h2 as int) {
                    assert(is_used(s1, sb, h2 as int));
                }
            } else {
                assert(h2 == h0);
            }
        }
    }
}

/// The place in which an inode holds its logical block `bn`.
pub open spec fn place_of(bn: int) -> int {
    if bn < 12 {
        bn
    } else {
        bn + 1
    }
}

/// The inode `d1` differs from `d` in the blocks that it holds at most.
pub open spec fn same_kind(d1: DiskInodeView, d: DiskInodeView) -> bool {
    &&& d1.ftype == d.ftype
    &&& d1.nlink == d.nlink
    &&& d1.dev == d.dev
    &&& d1.addrs.len() == d.addrs.len()
}

/// Mapping a logical block of an inode in use keeps the blocks accounted
/// for, and the block that it gives is the one that the inode holds in
/// the place of the logical block afterwards.
pub proof fn lemma_block_map(st: VolState, sb: SuperBlock, i0: int, d: DiskInodeView, bn: u32)
    requires
        ready(st.image, sb),
        accounted_with(st.image, sb, i0, d),
        in_use(st.image, sb, i0, d, i0),
    ensures
        ({
            let (s1, d1, r1) = block_map_spec(st, sb, d, bn);
            &&& follows(s1, st)
            &&& ready(s1.image, sb)
            &&& accounted_with(s1.image, sb, i0, d1)
            &&& same_kind(d1, d)
            &&& d1.size == d.size
            &&& r1 matches Ok(p) ==> bn < MAXFILE ==> p != 0 && p == holding(
                s1.image,
                sb,
                i0,
                d1,
                i0,
                place_of(bn as int),
            )
            &&& keeps_low(s1.image, st.image, sb)
            &&& keeps_used(s1.image, st.image, sb, set![d.addrs[12] as int])
            &&& stays_used(s1.image, st.image, sb)
            &&& grown(s1.image, d1, st.image, d, sb)
        }),
{
    reveal(block_map_spec);
    let img = st.image;
    if bn >= MAXFILE {
    } else if bn < NDIRECT {
        let a = d.addrs[bn as int];
        assert(holding(img, sb, i0, d, i0, bn as int) == a);
        if a != 0 {
        } else {
            lemma_balloc_image(st, sb);
            if balloc_spec(st, sb).1 is Ok {
                lemma_alloc_direct(st, sb, i0, d, bn as int);
            }
        }
    } else {
        let ind0 = d.addrs[12];
        assert(holding(img, sb, i0, d, i0, 12) == ind0);
        if ind0 != 0 {
            lemma_indirect_map(st, sb, i0, d, bn - NDIRECT);
        } else {
            lemma_balloc_image(st, sb);
            let (s1, r1) = balloc_spec(st, sb);
            if r1 is Ok {
                let ind = r1->Ok_0;
                lemma_alloc_direct(st, sb, i0, d, 12);
                let d1 = with_addr(d, 12, ind);
                lemma_indirect_map(s1, sb, i0, d1, bn - NDIRECT);
                let s2 = indirect_map_spec(s1, sb, ind, bn - NDIRECT).0;
                assert forall|k: int| 0 <= k < places() && #[trigger] held_at(
                    s2.image,
                    d1,
                    k,
                ) != 0 implies is_data_block(sb, held_at(s2.image, d1, k) as int) by {
                    assert(holding(s2.image, sb, i0, d1, i0, k) == held_at(s2.image, d1, k));
                }
                assert forall|v: int|
                    is_data_block(sb, v) && is_used(img, sb, v) && !set![
                        d.addrs[12] as int,
                    ].contains(v) implies #[trigger] s2.image[v] == s1.image[v] by {
                    assert(is_used(s1.image, sb, v));
                    assert(v != ind);
                }
                lemma_frames_trans(
                    img,
                    d,
                    s1.image,
                    d1,
                    s2.image,
                    d1,
                    sb,
                    set![d.addrs[12] as int],
                );
            }
        }
    }
}

/// Writing to the contents of an inode in use, block by block, keeps the
/// blocks accounted for.
pub proof fn lemma_write_steps(
    st: VolState,
    sb: SuperBlock,
    i0: int,
    d: DiskInodeView,
    src: Seq<u8>,
    off: int,
    n: int,
    tot: int,
)
    requires
        ready(st.image, sb),
        accounted_with(st.image, sb, i0, d),
        in_use(st.image, sb, i0, d, i0),
        0 <= off,
        0 <= tot <= n,
        off + n <= max_bytes(),
        n <= src.len(),
    ensures
        ({
            let (s1, d1, t, e) = write_steps(st, sb, d, src, off, n, tot);
            &&& follows(s1, st)
            &&& ready(s1.image, sb)
            &&& accounted_with(s1.image, sb, i0, d1)
            &&& same_kind(d1, d)
            &&& d1.size == d.size
            &&& tot <= t <= n
        }),
    decreases n - tot,
{
    if tot < n {
        let pos = off + tot;
        let bn = (pos / 512) as u32;
        assert(pos / 512 < MAXFILE) by {
            assert(max_bytes() == 140 * 512);
        }
        lemma_block_map(st, sb, i0, d, bn);
        let (s1, d1, r1) = block_map_spec(st, sb, d, bn);
        if r1 is Ok {
            let p = r1->Ok_0;
            let m = span(pos, n - tot);
            let k0 = place_of(bn as int);
            assert(k0 != 12 && 0 <= k0 < places());
            let blk = put_bytes(s1.image[p as int], pos % 512, src.subrange(tot, tot + m));
            assert(is_data_block(sb, p as int));
            assert(blk.len() == 512);
            let (s2, r2) = bwrite_spec(s1, p, blk);
            if r2 is Ok {
                lemma_data_write(s1.image, sb, i0, d1, k0, blk);
                lemma_write_steps(s2, sb, i0, d1, src, off, n, tot + m);
            }
        }
    }
}

/// The accounting does not look at the size of the inode that is worked
/// on.
pub proof fn lemma_accounted_resized(img: Image, sb: SuperBlock, i0: int, d: DiskInodeView, size: u32)
    requires
        accounted_with(img, sb, i0, d),
        sb.data_start() <= sb.size,
    ensures
        accounted_with(img, sb, i0, DiskInodeView { size, ..d }),
{
    let d2 = DiskInodeView { size, ..d };
    assert forall|i: int, k: int|
        in_use(img, sb, i0, d, i) && 0 <= k < places() implies #[trigger] holding(
        img,
        sb,
        i0,
        d2,
        i,
        k,
    ) == holding(img, sb, i0, d, i, k) by {}
    lemma_accounted_same(img, sb, i0, d, img, i0, d2);
}

/// Where the blocks are accounted for, they are accounted for with any
/// inode taken as the image holds it.
pub proof fn lemma_accounted_focus(img: Image, sb: SuperBlock, i0: int)
    requires
        ready(img, sb),
        accounted(img, sb),
        0 <= i0 < sb.ninodes,
    ensures
        accounted_with(img, sb, i0, dinode_at(img, sb, i0)),
{
    let z = dinode_at(img, sb, 0);
    let d = dinode_at(img, sb, i0);
    assert forall|i: int, k: int|
        in_use(img, sb, 0, z, i) && 0 <= k < places() implies #[trigger] holding(
        img,
        sb,
        i0,
        d,
        i,
        k,
    ) == holding(img, sb, 0, z, i, k) by {}
    lemma_accounted_same(img, sb, 0, z, img, i0, d);
}

/// Writing to the contents of an inode keeps the blocks accounted for.
/// Take a state of a volume whose blocks are accounted for, and an inode
/// of the volume that is in use. After writing to the inode's contents,
/// whether all, a part or nothing was written, the blocks are accounted
/// for.
pub proof fn lemma_winode_accounted(
    st: VolState,
    sb: SuperBlock,
    inum: u32,
    src: Seq<u8>,
    off: int,
    n: int,
)
    requires
        ready(st.image, sb),
        accounted(st.image, sb),
        1 <= inum < sb.ninodes,
        dinode_at(st.image, sb, inum as int).ftype != 0,
        0 <= off,
        0 <= n <= src.len(),
    ensures
        ready(winode_spec(st, sb, inum, src, off, n).0.image, sb),
        accounted(winode_spec(st, sb, inum, src, off, n).0.image, sb),
        follows(winode_spec(st, sb, inum, src, off, n).0, st),
{
    let blk = inode_block(sb, inum as int) as u32;
    lemma_inode_block_range(sb, inum as int);
    let (s0, r0) = reserve_spec(st, blk);
    if r0 is Ok {
        let d = dinode_at(s0.image, sb, inum as int);
        lemma_accounted_focus(s0.image, sb, inum as int);
        let n1 = if off >= max_bytes() {
            0
        } else if n < max_bytes() - off {
            n
        } else {
            max_bytes() - off
        };
        if off >= max_bytes() {
            assert(write_steps(s0, sb, d, src, off, 0, 0) == (s0, d, 0int, None::<FsError>));
        } else {
            lemma_write_steps(s0, sb, inum as int, d, src, off, n1, 0);
        }
        let (s1, d1, tot, err) = write_steps(s0, sb, d, src, off, n1, 0);
        let (si, d2, ri) = iwrite_spec(s0, sb, d, src, off, n);
        assert(si == s1);
        lemma_accounted_resized(s1.image, sb, inum as int, d1, d2.size);
        assert(d2 == DiskInodeView { size: d2.size, ..d1 });
        assert(s1.logged.contains(blk));
        lemma_accounted_written(s1.image, sb, inum as int, d2);
    }
}

/// The place of the inode that stands at index `j` of the list of its
/// blocks.
pub open spec fn list_place(j: int) -> int {
    if j < 12 {
        j
    } else if j == 140 {
        12
    } else {
        j + 1
    }
}

/// The list of the blocks of an inode holds what the inode holds in its
/// places.
pub proof fn lemma_blocks_places(img: Image, d: DiskInodeView)
    requires
        d.addrs.len() == 13,
    ensures
        forall|j: int|
            0 <= j < blocks_of(img, d).len() ==> 0 <= list_place(j) < places() && (
            #[trigger] blocks_of(img, d)[j]) == held_at(img, d, list_place(j)),
        forall|k: int|
            0 <= k < places() && #[trigger] held_at(img, d, k) != 0 ==> exists|j: int|
                0 <= j < blocks_of(img, d).len() && list_place(j) == k,
{
    let list = blocks_of(img, d);
    let ind = d.addrs[12];
    assert forall|k: int| 0 <= k < places() && #[trigger] held_at(img, d, k) != 0 implies exists|
        j: int,
    |
        0 <= j < list.len() && list_place(j) == k by {
        let j = if k < 12 {
            k
        } else if k == 12 {
            140
        } else {
            k - 1
        };
        assert(0 <= j < list.len() && list_place(j) == k);
    }
}

/// Freeing blocks that the bitmap marks as used, each once, with their
/// bitmap blocks reserved, cannot fail.
pub proof fn lemma_free_list_ok(st: VolState, sb: SuperBlock, list: Seq<u32>, k: int)
    requires
        ready(st.image, sb),
        0 <= k <= list.len(),
        forall|j: int|
            0 <= j < list.len() && list[j] != 0 ==> is_data_block(sb, (#[trigger] list[j]) as int)
                && is_used(st.image, sb, list[j] as int) && st.logged.contains(
                bitmap_block(sb, list[j] as int) as u32,
            ),
        forall|j: int, l: int|
            0 <= j < l < list.len() && list[j] != 0 ==> #[trigger] list[j] != #[trigger] list[l],
    ensures
        free_list_spec(st, sb, list, k).1 is Ok,
        forall|c: u32| st.logged.contains(c) ==> free_list_spec(st, sb, list, k).0.logged.contains(c),
    decreases k,
{
    if k > 0 {
        lemma_free_list_ok(st, sb, list, k - 1);
        lemma_free_list_clears(st, sb, list, k - 1);
        let (sp, rp) = free_list_spec(st, sb, list, k - 1);
        let b = list[k - 1];
        if b != 0 {
            reveal(block_free_spec);
            assert(forall|j: int| 0 <= j < k - 1 && list[j] != 0 ==> list[j] != b);
            assert(is_used(sp.image, sb, b as int) == is_used(st.image, sb, b as int));
        }
    }
}

/// Truncating an inode in use keeps the blocks accounted for: afterwards
/// the inode holds no block, or nothing has changed.
pub proof fn lemma_truncate(st: VolState, sb: SuperBlock, i0: int, d: DiskInodeView)
    requires
        ready(st.image, sb),
        accounted_with(st.image, sb, i0, d),
        in_use(st.image, sb, i0, d, i0),
    ensures
        ({
            let (s1, d1, r1) = truncate_spec(st, sb, d);
            &&& follows(s1, st)
            &&& ready(s1.image, sb)
            &&& accounted_with(s1.image, sb, i0, d1)
            &&& same_kind(d1, d)
            &&& d1.size == d.size
            &&& r1 is Ok ==> d1 == without_blocks(d)
            &&& r1 is Err ==> s1.image == st.image && d1 == d
            &&& bitmap_apart(s1.image, st.image, sb)
        }),
{
    let img = st.image;
    let ind = d.addrs[12];
    assert(holding(img, sb, i0, d, i0, 12) == ind);
    let list = blocks_of(img, d);
    lemma_blocks_places(img, d);
    let n = list.len() as int;
    lemma_reserve_list(st, sb, list, n);
    let (s0, r0) = reserve_list_spec(st, sb, list, n);
    if r0 is Ok {
        assert forall|j: int| 0 <= j < list.len() && list[j] != 0 implies is_data_block(
            sb,
            (#[trigger] list[j]) as int,
        ) && is_used(s0.image, sb, list[j] as int) && s0.logged.contains(
            bitmap_block(sb, list[j] as int) as u32,
        ) by {
            assert(holding(img, sb, i0, d, i0, list_place(j)) == list[j]);
        }
        assert forall|j: int, l: int| 0 <= j < l < list.len() && list[j] != 0 implies #[trigger] list[j]
            != #[trigger] list[l] by {
            assert(holding(img, sb, i0, d, i0, list_place(j)) == list[j]);
            assert(holding(img, sb, i0, d, i0, list_place(l)) == list[l]);
        }
        lemma_free_list_ok(s0, sb, list, n);
        lemma_free_list_clears(s0, sb, list, n);
        let s1 = free_list_spec(s0, sb, list, n).0;
        let img1 = s1.image;
        let d1 = without_blocks(d);
        assert forall|i: int| 1 <= i < sb.ninodes implies inode_in(img1, sb, i0, d1, i) == (if i
            == i0 {
            d1
        } else {
            inode_in(img, sb, i0, d, i)
        }) by {
            lemma_inode_block_range(sb, i);
        }
        assert forall|i: int, k: int|
            in_use(img, sb, i0, d, i) && 0 <= k < places() implies #[trigger] holding(
            img1,
            sb,
            i0,
            d1,
            i,
            k,
        ) == (if i == i0 {
            0
        } else {
            holding(img, sb, i0, d, i, k)
        }) by {
            if i != i0 {
                lemma_inode_block_range(sb, i);
                let di = inode_in(img, sb, i0, d, i);
                if di.addrs[12] != 0 {
                    assert(holding(img, sb, i0, d, i, 12) == di.addrs[12]);
                    assert(is_data_block(sb, di.addrs[12] as int));
                }
            }
        }
        // a block that another inode holds is not in the list
        assert forall|i: int, k: int|
            in_use(img, sb, i0, d, i) && i != i0 && 0 <= k < places() && #[trigger] holding(
                img,
                sb,
                i0,
                d,
                i,
                k,
            ) != 0 implies is_used(img1, sb, holding(img, sb, i0, d, i, k) as int) by {
            let v = holding(img, sb, i0, d, i, k);
            assert forall|j: int| 0 <= j < n && list[j] != 0 implies list[j] != v by {
                assert(holding(img, sb, i0, d, i0, list_place(j)) == list[j]);
            }
        }
        assert forall|i: int, k: int|
            in_use(img1, sb, i0, d1, i) && 0 <= k < places() && #[trigger] holding(
                img1,
                sb,
                i0,
                d1,
                i,
                k,
            ) != 0 implies is_data_block(sb, holding(img1, sb, i0, d1, i, k) as int) && is_used(
            img1,
            sb,
            holding(img1, sb, i0, d1, i, k) as int,
        ) by {
            assert(i != i0);
            assert(holding(img, sb, i0, d, i, k) != 0);
        }
        assert forall|i: int, k: int, j: int, l: int|
            in_use(img1, sb, i0, d1, i) && in_use(img1, sb, i0, d1, j) && 0 <= k < places() && 0
                <= l < places() && #[trigger] holding(img1, sb, i0, d1, i, k) != 0 && holding(
                img1,
                sb,
                i0,
                d1,
                i,
                k,
            ) == #[trigger] holding(img1, sb, i0, d1, j, l) implies i == j && k == l by {
            assert(i != i0 && j != i0);
            assert(holding(img, sb, i0, d, i, k) == holding(img, sb, i0, d, j, l));
        }
        assert forall|c: int| is_data_block(sb, c) && #[trigger] is_used(img1, sb, c) implies exists|
            i: int,
            k: int,
        |
            in_use(img1, sb, i0, d1, i) && 0 <= k < places() && #[trigger] holding(
                img1,
                sb,
                i0,
                d1,
                i,
                k,
            ) == c by {
            if exists|j: int| 0 <= j < n && list[j] == c {
                let j = choose|j: int| 0 <= j < n && list[j] == c;
                assert(!is_used(img1, sb, list[j] as int));
            }
            assert(forall|j: int| 0 <= j < n && list[j] != 0 ==> list[j] != c);
            assert(is_used(img, sb, c));
            let (i, k) = choose|i: int, k: int|
                in_use(img, sb, i0, d, i) && 0 <= k < places() && #[trigger] holding(
                    img,
                    sb,
                    i0,
                    d,
                    i,
                    k,
                ) == c;
            if i == i0 {
                let j = choose|j: int| 0 <= j < list.len() && list_place(j) == k;
                assert(list[j] == c);
            }
            assert(holding(img1, sb, i0, d1, i, k) == c);
        }
        assert forall|b: int| 0 <= b < sb.data_start() implies #[trigger] is_used(
            img1,
            sb,
            b,
        ) by {
            assert(is_used(img, sb, b));
            assert(0 <= b < sb.size);
            assert forall|j: int| 0 <= j < n && list[j] != 0 implies list[j] != b by {
                assert(holding(img, sb, i0, d, i0, list_place(j)) == list[j]);
                assert(is_data_block(sb, list[j] as int));
            }
            assert(is_used(img1, sb, b) == is_used(s0.image, sb, b));
        }
    }
}

/// The accounting looks at the blocks that the inode that is worked on
/// holds and at whether it is in use, and at nothing else of it.
pub proof fn lemma_accounted_retyped(
    img: Image,
    sb: SuperBlock,
    i0: int,
    d: DiskInodeView,
    d2: DiskInodeView,
)
    requires
        accounted_with(img, sb, i0, d),
        sb.data_start() <= sb.size,
        d2.addrs == d.addrs,
        (d2.ftype != 0) == (d.ftype != 0),
    ensures
        accounted_with(img, sb, i0, d2),
{
    assert forall|i: int, k: int|
        in_use(img, sb, i0, d, i) && 0 <= k < places() implies #[trigger] holding(
        img,
        sb,
        i0,
        d2,
        i,
        k,
    ) == holding(img, sb, i0, d, i, k) by {}
    lemma_accounted_same(img, sb, i0, d, img, i0, d2);
}

/// An inode that holds no block can be taken out of use, or into use,
/// without a change to the accounting.
pub proof fn lemma_accounted_idle(
    img: Image,
    sb: SuperBlock,
    i0: int,
    d: DiskInodeView,
    d2: DiskInodeView,
)
    requires
        accounted_with(img, sb, i0, d),
        sb.data_start() <= sb.size,
        d2.addrs.len() == 13,
        forall|k: int| 0 <= k < 13 ==> d2.addrs[k] == 0,
        d.ftype == 0 || forall|k: int| 0 <= k < 13 ==> d.addrs[k] == 0,
    ensures
        accounted_with(img, sb, i0, d2),
{
    assert forall|k: int| 0 <= k < places() implies held_at(img, d2, k) == 0 by {}
    assert forall|i: int, k: int|
        in_use(img, sb, i0, d2, i) && 0 <= k < places() && #[trigger] holding(
            img,
            sb,
            i0,
            d2,
            i,
            k,
        ) != 0 implies is_data_block(sb, holding(img, sb, i0, d2, i, k) as int) && is_used(
        img,
        sb,
        holding(img, sb, i0, d2, i, k) as int,
    ) by {
        assert(i != i0);
        assert(holding(img, sb, i0, d, i, k) != 0);
    }
    assert forall|i: int, k: int, j: int, l: int|
        in_use(img, sb, i0, d2, i) && in_use(img, sb, i0, d2, j) && 0 <= k < places() && 0 <= l
            < places() && #[trigger] holding(img, sb, i0, d2, i, k) != 0 && holding(
            img,
            sb,
            i0,
            d2,
            i,
            k,
        ) == #[trigger] holding(img, sb, i0, d2, j, l) implies i == j && k == l by {
        assert(i != i0 && j != i0);
        assert(holding(img, sb, i0, d, i, k) == holding(img, sb, i0, d, j, l));
    }
    assert forall|c: int| is_data_block(sb, c) && #[trigger] is_used(img, sb, c) implies exists|
        i: int,
        k: int,
    |
        in_use(img, sb, i0, d2, i) && 0 <= k < places() && #[trigger] holding(
            img,
            sb,
            i0,
            d2,
            i,
            k,
        ) == c by {
        let (i, k) = choose|i: int, k: int|
            in_use(img, sb, i0, d, i) && 0 <= k < places() && #[trigger] holding(
                img,
                sb,
                i0,
                d,
                i,
                k,
            ) == c;
        if i == i0 {
            assert(held_at(img, d, k) == 0) by {
                assert(forall|q: int| 0 <= q < 13 ==> d.addrs[q] == 0);
            }
        }
        assert(holding(img, sb, i0, d2, i, k) == c);
    }
}

/// Writing to the contents of the inode that is worked on keeps the blocks
/// accounted for.
pub proof fn lemma_iwrite(
    st: VolState,
    sb: SuperBlock,
    i0: int,
    d: DiskInodeView,
    src: Seq<u8>,
    off: int,
    n: int,
)
    requires
        ready(st.image, sb),
        accounted_with(st.image, sb, i0, d),
        in_use(st.image, sb, i0, d, i0),
        0 <= off,
        0 <= n <= src.len(),
    ensures
        ({
            let (s1, d1, r1) = iwrite_spec(st, sb, d, src, off, n);
            &&& follows(s1, st)
            &&& ready(s1.image, sb)
            &&& accounted_with(s1.image, sb, i0, d1)
            &&& same_kind(d1, d)
        }),
{
    let n1 = if off >= max_bytes() {
        0
    } else if n < max_bytes() - off {
        n
    } else {
        max_bytes() - off
    };
    if off >= max_bytes() {
        assert(write_steps(st, sb, d, src, off, 0, 0) == (st, d, 0int, None::<FsError>));
    } else {
        lemma_write_steps(st, sb, i0, d, src, off, n1, 0);
    }
    let (s1, d1, tot, err) = write_steps(st, sb, d, src, off, n1, 0);
    let (si, d2, ri) = iwrite_spec(st, sb, d, src, off, n);
    lemma_accounted_resized(s1.image, sb, i0, d1, d2.size);
    assert(d2 == DiskInodeView { size: d2.size, ..d1 });
}

/// Entering a name in the directory that is worked on keeps the blocks
/// accounted for.
pub proof fn lemma_dir_link(
    st: VolState,
    sb: SuperBlock,
    i0: int,
    d: DiskInodeView,
    name: Seq<u8>,
    inum: u32,
)
    requires
        ready(st.image, sb),
        accounted_with(st.image, sb, i0, d),
        in_use(st.image, sb, i0, d, i0),
    ensures
        ({
            let (s1, d1, r1) = dir_link_spec(st, sb, d, name, inum);
            &&& follows(s1, st)
            &&& ready(s1.image, sb)
            &&& accounted_with(s1.image, sb, i0, d1)
            &&& same_kind(d1, d)
        }),
{
    let (s1, d1, r1) = dir_link_spec(st, sb, d, name, inum);
    if name.len() <= 28 {
        match crate::dir::dir_scan(st.image, sb, d, name, 0) {
            Ok(None) => {
                match crate::dir::dir_slot(st.image, sb, d, 0) {
                    Ok(off) => {
                        lemma_iwrite(
                            st,
                            sb,
                            i0,
                            d,
                            crate::dir::entry_bytes(inum, name),
                            off as int,
                            32,
                        );
                    },
                    Err(_) => {},
                }
            },
            _ => {},
        }
    }
}

/// Removing a name from the directory that is worked on keeps the blocks
/// accounted for.
pub proof fn lemma_dir_unlink(st: VolState, sb: SuperBlock, i0: int, d: DiskInodeView, name: Seq<u8>)
    requires
        ready(st.image, sb),
        accounted_with(st.image, sb, i0, d),
        in_use(st.image, sb, i0, d, i0),
    ensures
        ({
            let (s1, d1, r1) = dir_unlink_spec(st, sb, d, name);
            &&& follows(s1, st)
            &&& ready(s1.image, sb)
            &&& accounted_with(s1.image, sb, i0, d1)
            &&& same_kind(d1, d)
        }),
{
    match crate::dir::dir_scan(st.image, sb, d, name, 0) {
        Ok(Some((inum, off))) => {
            lemma_iwrite(
                st,
                sb,
                i0,
                d,
                crate::dir::entry_bytes(0, Seq::empty()),
                off as int,
                32,
            );
        },
        _ => {},
    }
}

/// Writing an inode that holds the blocks that it held, and is in use if
/// it was, keeps the blocks accounted for.
pub proof fn lemma_rewrite_accounted(st: VolState, sb: SuperBlock, inum: u32, d2: DiskInodeView)
    requires
        ready(st.image, sb),
        accounted(st.image, sb),
        1 <= inum < sb.ninodes,
        d2.addrs == dinode_at(st.image, sb, inum as int).addrs,
        (d2.ftype != 0) == (dinode_at(st.image, sb, inum as int).ftype != 0),
    ensures
        ({
            let s1 = bwrite_spec(
                st,
                inode_block(sb, inum as int) as u32,
                dinode_block_with(st.image, sb, inum as int, d2),
            ).0;
            &&& follows(s1, st)
            &&& ready(s1.image, sb)
            &&& accounted(s1.image, sb)
        }),
{
    lemma_inode_block_range(sb, inum as int);
    lemma_accounted_focus(st.image, sb, inum as int);
    lemma_accounted_retyped(
        st.image,
        sb,
        inum as int,
        dinode_at(st.image, sb, inum as int),
        d2,
    );
    lemma_accounted_written(st.image, sb, inum as int, d2);
}

/// Entering a name in a directory keeps the blocks accounted for. Take a
/// state of a volume whose blocks are accounted for, and an inode of the
/// volume that is in use. After a name was entered in it, or could not be
/// entered, the blocks are accounted for.
pub proof fn lemma_dirlink_accounted(
    st: VolState,
    sb: SuperBlock,
    dnum: u32,
    name: Seq<u8>,
    inum: u32,
)
    requires
        ready(st.image, sb),
        accounted(st.image, sb),
        1 <= dnum < sb.ninodes,
        dinode_at(st.image, sb, dnum as int).ftype != 0,
    ensures
        ready(dirlink_spec(st, sb, dnum, name, inum).0.image, sb),
        accounted(dirlink_spec(st, sb, dnum, name, inum).0.image, sb),
        follows(dirlink_spec(st, sb, dnum, name, inum).0, st),
{
    let blk = inode_block(sb, dnum as int) as u32;
    lemma_inode_block_range(sb, dnum as int);
    let (s0, r0) = reserve_spec(st, blk);
    if r0 is Ok {
        let d = dinode_at(s0.image, sb, dnum as int);
        lemma_accounted_focus(s0.image, sb, dnum as int);
        lemma_dir_link(s0, sb, dnum as int, d, name, inum);
        let (s1, d1, r1) = dir_link_spec(s0, sb, d, name, inum);
        assert(s1.logged.contains(blk));
        lemma_accounted_written(s1.image, sb, dnum as int, d1);
    }
}

/// Removing a name from a directory keeps the blocks accounted for; see
/// `lemma_dirlink_accounted`.
pub proof fn lemma_dirunlink_accounted(st: VolState, sb: SuperBlock, dnum: u32, name: Seq<u8>)
    requires
        ready(st.image, sb),
        accounted(st.image, sb),
        1 <= dnum < sb.ninodes,
        dinode_at(st.image, sb, dnum as int).ftype != 0,
    ensures
        ready(dirunlink_spec(st, sb, dnum, name).0.image, sb),
        accounted(dirunlink_spec(st, sb, dnum, name).0.image, sb),
        follows(dirunlink_spec(st, sb, dnum, name).0, st),
{
    let blk = inode_block(sb, dnum as int) as u32;
    lemma_inode_block_range(sb, dnum as int);
    let (s0, r0) = reserve_spec(st, blk);
    if r0 is Ok {
        let d = dinode_at(s0.image, sb, dnum as int);
        lemma_accounted_focus(s0.image, sb, dnum as int);
        lemma_dir_unlink(s0, sb, dnum as int, d, name);
        let (s1, d1, r1) = dir_unlink_spec(s0, sb, d, name);
        assert(s1.logged.contains(blk));
        lemma_accounted_written(s1.image, sb, dnum as int, d1);
    }
}

/// Freeing an inode keeps the blocks accounted for. Take a state of a
/// volume whose blocks are accounted for, and an inode of the volume that
/// is in use, as the volume holds it. After the inode was freed, or could
/// not be freed, the blocks are accounted for.
pub proof fn lemma_drop_inode_accounted(st: VolState, sb: SuperBlock, inum: u32)
    requires
        ready(st.image, sb),
        accounted(st.image, sb),
        1 <= inum < sb.ninodes,
        dinode_at(st.image, sb, inum as int).ftype != 0,
    ensures
        ({
            let d = dinode_at(st.image, sb, inum as int);
            &&& ready(drop_inode_spec(st, sb, inum, d).0.image, sb)
            &&& accounted(drop_inode_spec(st, sb, inum, d).0.image, sb)
            &&& follows(drop_inode_spec(st, sb, inum, d).0, st)
        }),
{
    let d = dinode_at(st.image, sb, inum as int);
    let blk = inode_block(sb, inum as int) as u32;
    lemma_inode_block_range(sb, inum as int);
    let (s0, r0) = reserve_spec(st, blk);
    if r0 is Ok {
        lemma_accounted_focus(s0.image, sb, inum as int);
        lemma_truncate(s0, sb, inum as int, d);
        let (s1, d1, r1) = truncate_spec(s0, sb, d);
        if r1 is Ok {
            lemma_accounted_idle(s1.image, sb, inum as int, d1, freed_dinode(d1));
            assert(s1.logged.contains(blk));
            lemma_accounted_written(s1.image, sb, inum as int, freed_dinode(d1));
        }
    }
}

/// Taking the contents of an inode away keeps the blocks accounted for;
/// see `lemma_drop_inode_accounted`.
pub proof fn lemma_drop_contents_accounted(st: VolState, sb: SuperBlock, inum: u32)
    requires
        ready(st.image, sb),
        accounted(st.image, sb),
        1 <= inum < sb.ninodes,
        dinode_at(st.image, sb, inum as int).ftype != 0,
    ensures
        ({
            let d = dinode_at(st.image, sb, inum as int);
            &&& ready(drop_contents_spec(st, sb, inum, d).0.image, sb)
            &&& accounted(drop_contents_spec(st, sb, inum, d).0.image, sb)
            &&& follows(drop_contents_spec(st, sb, inum, d).0, st)
        }),
{
    let d = dinode_at(st.image, sb, inum as int);
    let blk = inode_block(sb, inum as int) as u32;
    lemma_inode_block_range(sb, inum as int);
    let (s0, r0) = reserve_spec(st, blk);
    if r0 is Ok {
        lemma_accounted_focus(s0.image, sb, inum as int);
        lemma_truncate(s0, sb, inum as int, d);
        let (s1, d1, r1) = truncate_spec(s0, sb, d);
        if r1 is Ok {
            lemma_accounted_retyped(s1.image, sb, inum as int, d1, emptied_dinode(d1));
            assert(s1.logged.contains(blk));
            lemma_accounted_written(s1.image, sb, inum as int, emptied_dinode(d1));
        }
    }
}

/// Giving back a handle keeps the blocks accounted for.
pub proof fn lemma_release_accounted(st: VolState, s: Seq<Inode>, sb: SuperBlock, ip: InodePtr)
    requires
        ready(st.image, sb),
        accounted(st.image, sb),
        1 <= ip.inum < sb.ninodes,
    ensures
        ready(release_spec(st, s, sb, ip).0.image, sb),
        accounted(release_spec(st, s, sb, ip).0.image, sb),
        follows(release_spec(st, s, sb, ip).0, st),
{
    let d = dinode_at(st.image, sb, ip.inum as int);
    if !(s[ip.slot as int].refs != 1 || d.nlink != 0 || d.ftype == 0) {
        lemma_drop_inode_accounted(st, sb, ip.inum);
    }
}

/// A name that a directory has names an inode other than inode 0.
pub proof fn lemma_dir_scan_named(
    img: Image,
    sb: SuperBlock,
    d: DiskInodeView,
    name: Seq<u8>,
    i: int,
)
    ensures
        dir_scan(img, sb, d, name, i) matches Ok(Some(hit)) ==> hit.0 != 0,
    decreases entry_count(d) - i,
{
    if !(i < 0 || i >= entry_count(d)) {
        match entry_at(img, sb, d, i * 32) {
            Err(e) => {},
            Ok(e) => {
                if !(e.inum != 0 && crate::inode::name_is(e.name, name)) {
                    lemma_dir_scan_named(img, sb, d, name, i + 1);
                }
            },
        }
    }
}

/// A path leads to an inode of the volume other than inode 0.
pub proof fn lemma_walk_named(
    img: Image,
    sb: SuperBlock,
    cur: u32,
    names: Seq<Seq<u8>>,
    k: int,
)
    requires
        1 <= cur < sb.ninodes,
    ensures
        walk(img, sb, cur, names, k) matches Ok(inum) ==> 1 <= inum < sb.ninodes,
    decreases names.len() - k,
{
    if !(k < 0 || k >= names.len()) {
        let d = dinode_at(img, sb, cur as int);
        if d.ftype == 2 {
            lemma_dir_scan_named(img, sb, d, names[k], 0);
            match dir_scan(img, sb, d, names[k], 0) {
                Ok(Some((inum, _))) => {
                    if inum < sb.ninodes {
                        lemma_walk_named(img, sb, inum, names, k + 1);
                    }
                },
                _ => {},
            }
        }
    }
}

/// Allocating an inode keeps the blocks accounted for.
pub proof fn lemma_inode_alloc_accounted(
    st: VolState,
    s: Seq<Inode>,
    sb: SuperBlock,
    ftype: FileType,
)
    requires
        ready(st.image, sb),
        accounted(st.image, sb),
    ensures
        ready(inode_alloc_spec(st, s, sb, ftype).0.image, sb),
        accounted(inode_alloc_spec(st, s, sb, ftype).0.image, sb),
        follows(inode_alloc_spec(st, s, sb, ftype).0, st),
{
    match free_inode(st.image, sb) {
        None => {},
        Some(i) => {
            let c = choose|c: int| is_first_free_inode(st.image, sb, c);
            assert(1 <= i < sb.ninodes && dinode_at(st.image, sb, i as int).ftype == 0);
            lemma_inode_block_range(sb, i as int);
            let (s1, r1) = bwrite_spec(
                st,
                inode_block(sb, i as int) as u32,
                dinode_block_with(st.image, sb, i as int, blank_dinode(ftype)),
            );
            if r1 is Ok {
                lemma_accounted_focus(st.image, sb, i as int);
                lemma_accounted_idle(
                    st.image,
                    sb,
                    i as int,
                    dinode_at(st.image, sb, i as int),
                    blank_dinode(ftype),
                );
                lemma_accounted_written(st.image, sb, i as int, blank_dinode(ftype));
            }
        },
    }
}

/// Taking a new inode back keeps the blocks accounted for.
pub proof fn lemma_undo_accounted(st: VolState, sb: SuperBlock, i: u32)
    requires
        ready(st.image, sb),
        accounted(st.image, sb),
        1 <= i < sb.ninodes,
    ensures
        ready(undo_spec(st, sb, i).image, sb),
        accounted(undo_spec(st, sb, i).image, sb),
        follows(undo_spec(st, sb, i), st),
{
    if dinode_at(st.image, sb, i as int).ftype != 0 {
        lemma_drop_inode_accounted(st, sb, i);
    }
}

/// Entering a new inode in its parent keeps the blocks accounted for.
pub proof fn lemma_enter_accounted(
    st: VolState,
    sb: SuperBlock,
    pnum: u32,
    name: Seq<u8>,
    ftype: FileType,
    i: u32,
)
    requires
        ready(st.image, sb),
        accounted(st.image, sb),
        1 <= pnum < sb.ninodes,
        1 <= i < sb.ninodes,
        st.logged.contains(inode_block(sb, pnum as int) as u32),
    ensures
        ready(enter_spec(st, sb, pnum, name, ftype, i).0.image, sb),
        accounted(enter_spec(st, sb, pnum, name, ftype, i).0.image, sb),
        follows(enter_spec(st, sb, pnum, name, ftype, i).0, st),
{
    let pd = dinode_at(st.image, sb, pnum as int);
    lemma_inode_block_range(sb, pnum as int);
    if pd.ftype != 2 {
        lemma_undo_accounted(st, sb, i);
    } else {
        lemma_accounted_focus(st.image, sb, pnum as int);
        lemma_dir_link(st, sb, pnum as int, pd, name, i);
        let (s3, pd3, r3) = dir_link_spec(st, sb, pd, name, i);
        let pd4 = if r3 is Ok && ftype == FileType::Dir {
            linked_once_more(pd3)
        } else {
            pd3
        };
        lemma_accounted_retyped(s3.image, sb, pnum as int, pd3, pd4);
        lemma_accounted_written(s3.image, sb, pnum as int, pd4);
        let (s4, r4) = bwrite_spec(
            s3,
            inode_block(sb, pnum as int) as u32,
            dinode_block_with(s3.image, sb, pnum as int, pd4),
        );
        assert(r4 is Ok);
        if r3 is Err {
            lemma_undo_accounted(s4, sb, i);
        }
    }
}

/// Making a new inode keeps the blocks accounted for.
pub proof fn lemma_make_accounted(
    st: VolState,
    s: Seq<Inode>,
    sb: SuperBlock,
    pnum: u32,
    pd: DiskInodeView,
    name: Seq<u8>,
    ftype: FileType,
)
    requires
        ready(st.image, sb),
        accounted(st.image, sb),
        1 <= pnum < sb.ninodes,
        ftype != FileType::Free,
    ensures
        ready(make_spec(st, s, sb, pnum, pd, name, ftype).0.image, sb),
        accounted(make_spec(st, s, sb, pnum, pd, name, ftype).0.image, sb),
        follows(make_spec(st, s, sb, pnum, pd, name, ftype).0, st),
{
    if !(name.len() > 28) && !(ftype == FileType::Dir && pd.nlink == 0xffff) {
        match free_inode(st.image, sb) {
            None => {},
            Some(i) => {
                let c = choose|c: int| is_first_free_inode(st.image, sb, c);
                assert(1 <= i < sb.ninodes && dinode_at(st.image, sb, i as int).ftype == 0);
                lemma_inode_block_range(sb, pnum as int);
                lemma_inode_block_range(sb, i as int);
                let pblk = inode_block(sb, pnum as int) as u32;
                let iblk = inode_block(sb, i as int) as u32;
                let (s0, r0) = reserve_spec(st, pblk);
                if r0 is Ok {
                    let (s1, r1) = reserve_spec(s0, iblk);
                    if r1 is Ok {
                        assert(s1.image == st.image);
                        // the new inode, not yet written
                        let d0 = fresh_dinode(ftype);
                        lemma_accounted_focus(s1.image, sb, i as int);
                        lemma_accounted_idle(
                            s1.image,
                            sb,
                            i as int,
                            dinode_at(s1.image, sb, i as int),
                            d0,
                        );
                        let (s2, d2, r2) = first_entries_spec(s1, sb, ftype, i, pnum);
                        if ftype == FileType::Dir {
                            lemma_dir_link(s1, sb, i as int, d0, dot_name(), i);
                            let (sa, da, ra) = dir_link_spec(s1, sb, d0, dot_name(), i);
                            if ra is Ok {
                                lemma_dir_link(sa, sb, i as int, da, dotdot_name(), pnum);
                            }
                        }
                        assert(accounted_with(s2.image, sb, i as int, d2));
                        assert(s2.logged.contains(iblk) && s2.logged.contains(pblk));
                        lemma_accounted_written(s2.image, sb, i as int, d2);
                        let (s3, r3) = bwrite_spec(
                            s2,
                            iblk,
                            dinode_block_with(s2.image, sb, i as int, d2),
                        );
                        assert(r3 is Ok);
                        if r2 is Err {
                            lemma_undo_accounted(s3, sb, i);
                        } else {
                            lemma_enter_accounted(s3, sb, pnum, name, ftype, i);
                        }
                    }
                }
            },
        }
    }
}

/// Creating a path keeps the blocks accounted for. Take a state of a
/// volume whose blocks are accounted for. After a path was created as a
/// file or a directory, or could not be created, the blocks are accounted
/// for.
pub proof fn lemma_create_accounted(
    st: VolState,
    s: Seq<Inode>,
    sb: SuperBlock,
    path: Seq<u8>,
    ftype: FileType,
)
    requires
        ready(st.image, sb),
        accounted(st.image, sb),
        ftype != FileType::Free,
    ensures
        ready(create_spec(st, s, sb, path, ftype).0.image, sb),
        accounted(create_spec(st, s, sb, path, ftype).0.image, sb),
        follows(create_spec(st, s, sb, path, ftype).0, st),
{
    match resolve_parent_spec(st.image, sb, path) {
        Err(e) => {},
        Ok((pnum, name)) => {
            lemma_walk_named(
                st.image,
                sb,
                ROOTINO,
                crate::path::names_of(path).drop_last(),
                0,
            );
            let pd = dinode_at(st.image, sb, pnum as int);
            if pd.ftype == 2 {
                match dir_scan(st.image, sb, pd, name, 0) {
                    Ok(None) => {
                        lemma_make_accounted(st, s, sb, pnum, pd, name, ftype);
                    },
                    _ => {},
                }
            }
        },
    }
}

/// Removing an entry and counting one entry fewer for what it named keeps
/// the blocks accounted for.
pub proof fn lemma_unlink_entry_accounted(
    st: VolState,
    sb: SuperBlock,
    pnum: u32,
    name: Seq<u8>,
    c: u32,
)
    requires
        ready(st.image, sb),
        accounted(st.image, sb),
        1 <= pnum < sb.ninodes,
        1 <= c < sb.ninodes,
        dinode_at(st.image, sb, pnum as int).ftype != 0,
    ensures
        ({
            let pd = dinode_at(st.image, sb, pnum as int);
            &&& ready(unlink_entry_spec(st, sb, pnum, pd, name, c).0.image, sb)
            &&& accounted(unlink_entry_spec(st, sb, pnum, pd, name, c).0.image, sb)
            &&& follows(unlink_entry_spec(st, sb, pnum, pd, name, c).0, st)
        }),
{
    let pd = dinode_at(st.image, sb, pnum as int);
    lemma_inode_block_range(sb, pnum as int);
    lemma_inode_block_range(sb, c as int);
    let pblk = inode_block(sb, pnum as int) as u32;
    let cblk = inode_block(sb, c as int) as u32;
    let (s0, r0) = reserve_spec(st, pblk);
    if r0 is Ok {
        let (s1, r1) = reserve_spec(s0, cblk);
        if r1 is Ok {
            assert(s1.image == st.image);
            lemma_accounted_focus(s1.image, sb, pnum as int);
            lemma_dir_unlink(s1, sb, pnum as int, pd, name);
            let (s2, pd2, r2) = dir_unlink_spec(s1, sb, pd, name);
            assert(s2.logged.contains(pblk) && s2.logged.contains(cblk));
            lemma_accounted_written(s2.image, sb, pnum as int, pd2);
            let (s3, r3) = bwrite_spec(s2, pblk, dinode_block_with(s2.image, sb, pnum as int, pd2));
            assert(r3 is Ok);
            if r2 is Ok {
                let cd = dinode_at(s3.image, sb, c as int);
                lemma_rewrite_accounted(s3, sb, c, linked_once_less(cd));
            }
        }
    }
}

/// Removing a name keeps the blocks accounted for. Take a state of a
/// volume whose blocks are accounted for. After the name that a path ends
/// in was removed, or could not be removed, the blocks are accounted for.
pub proof fn lemma_unlink_accounted(st: VolState, s: Seq<Inode>, sb: SuperBlock, path: Seq<u8>)
    requires
        ready(st.image, sb),
        accounted(st.image, sb),
    ensures
        ready(unlink_spec(st, s, sb, path).0.image, sb),
        accounted(unlink_spec(st, s, sb, path).0.image, sb),
        follows(unlink_spec(st, s, sb, path).0, st),
{
    match resolve_parent_spec(st.image, sb, path) {
        Err(e) => {},
        Ok((pnum, name)) => {
            lemma_walk_named(
                st.image,
                sb,
                ROOTINO,
                crate::path::names_of(path).drop_last(),
                0,
            );
            let pd = dinode_at(st.image, sb, pnum as int);
            if pd.ftype == 2 {
                lemma_dir_scan_named(st.image, sb, pd, name, 0);
                match dir_scan(st.image, sb, pd, name, 0) {
                    Ok(Some((c, _))) => {
                        let (t1, g1) = get_inode_spec(s, sb, c);
                        match g1 {
                            Err(e) => {},
                            Ok(ip) => {
                                lemma_unlink_entry_accounted(st, sb, pnum, name, c);
                                let (s1, r1) = unlink_entry_spec(st, sb, pnum, pd, name, c);
                                lemma_release_accounted(s1, t1, sb, ip);
                            },
                        }
                    },
                    _ => {},
                }
            }
        },
    }
}

/// Making a directory keeps the blocks accounted for.
pub proof fn lemma_mkdir_accounted(st: VolState, s: Seq<Inode>, sb: SuperBlock, path: Seq<u8>)
    requires
        ready(st.image, sb),
        accounted(st.image, sb),
    ensures
        ready(mkdir_spec(st, s, sb, path).0.image, sb),
        accounted(mkdir_spec(st, s, sb, path).0.image, sb),
        follows(mkdir_spec(st, s, sb, path).0, st),
{
    lemma_create_accounted(st, s, sb, path, FileType::Dir);
    let (s1, t1, r1) = create_spec(st, s, sb, path, FileType::Dir);
    match r1 {
        Err(e) => {},
        Ok(ip) => {
            lemma_create_handle(st, s, sb, path, FileType::Dir);
            lemma_release_accounted(s1, t1, sb, ip);
        },
    }
}

/// The handle that a creation gives out is on an inode of the volume other
/// than inode 0.
pub proof fn lemma_create_handle(
    st: VolState,
    s: Seq<Inode>,
    sb: SuperBlock,
    path: Seq<u8>,
    ftype: FileType,
)
    ensures
        create_spec(st, s, sb, path, ftype).2 matches Ok(ip) ==> 1 <= ip.inum < sb.ninodes,
{
    match resolve_parent_spec(st.image, sb, path) {
        Err(e) => {},
        Ok((pnum, name)) => {
            let pd = dinode_at(st.image, sb, pnum as int);
            if pd.ftype == 2 {
                lemma_dir_scan_named(st.image, sb, pd, name, 0);
                match dir_scan(st.image, sb, pd, name, 0) {
                    Ok(None) => {
                        match free_inode(st.image, sb) {
                            None => {},
                            Some(i) => {
                                let c = choose|c: int| is_first_free_inode(st.image, sb, c);
                            },
                        }
                    },
                    _ => {},
                }
            }
        },
    }
}

/// Finding or making the inode for an open keeps the blocks accounted for.
pub proof fn lemma_open_inode_accounted(
    st: VolState,
    s: Seq<Inode>,
    sb: SuperBlock,
    path: Seq<u8>,
    omod: OpenMode,
)
    requires
        ready(st.image, sb),
        accounted(st.image, sb),
        sb.ninodes >= 2,
    ensures
        ready(open_inode_spec(st, s, sb, path, omod).0.image, sb),
        accounted(open_inode_spec(st, s, sb, path, omod).0.image, sb),
        follows(open_inode_spec(st, s, sb, path, omod).0, st),
{
    if omod == OpenMode::OCreate {
        lemma_create_accounted(st, s, sb, path, FileType::File);
    } else {
        let (s1, r1) = find_inode_spec(st, s, sb, path);
        match r1 {
            Err(e) => {},
            Ok(ip) => {
                if crate::dir::is_absolute(path) {
                    lemma_walk_named(st.image, sb, ROOTINO, crate::path::names_of(path), 0);
                }
                assert(1 <= ip.inum < sb.ninodes);
                let d = dinode_at(st.image, sb, ip.inum as int);
                if d.ftype == 0 {
                    lemma_release_accounted(st, s1, sb, ip);
                } else if omod != OpenMode::ORdonly && d.ftype == 2 {
                    lemma_release_accounted(st, s1, sb, ip);
                } else if omod == OpenMode::OTrunc {
                    lemma_drop_contents_accounted(st, sb, ip.inum);
                    let (st2, r2) = drop_contents_spec(st, sb, ip.inum, d);
                    if r2 is Err {
                        lemma_release_accounted(st2, s1, sb, ip);
                    }
                }
            },
        }
    }
}

/// The accounting looks at no block of the log, and at none before it:
/// two images that hold the same outside the log account for the blocks
/// alike. So a commit, which makes the device hold what a reader saw
/// outside the log, keeps the blocks accounted for.
pub proof fn lemma_accounted_outside_log(img: Image, img2: Image, sb: SuperBlock)
    requires
        ready(img, sb),
        accounted(img, sb),
        image_wf(img2),
        same_outside_log(img2, img, sb.logstart as int, sb.nlog as int),
    ensures
        ready(img2, sb),
        accounted(img2, sb),
{
    let z = dinode_at(img, sb, 0);
    let z2 = dinode_at(img2, sb, 0);
    assert forall|i: int| 0 <= i < sb.ninodes implies dinode_at(img2, sb, i) == dinode_at(
        img,
        sb,
        i,
    ) by {
        lemma_inode_block_range(sb, i);
    }
    assert forall|i: int, k: int|
        in_use(img, sb, 0, z, i) && 0 <= k < places() implies #[trigger] holding(
        img2,
        sb,
        0,
        z2,
        i,
        k,
    ) == holding(img, sb, 0, z, i, k) by {
        let di = dinode_at(img, sb, i);
        if di.addrs[12] != 0 {
            assert(holding(img, sb, 0, z, i, 12) == di.addrs[12]);
            assert(is_data_block(sb, di.addrs[12] as int));
        }
    }
    assert forall|b: int| 0 <= b < sb.size implies is_used(img2, sb, b) == is_used(
        img,
        sb,
        b,
    ) by {
        lemma_bitmap_block_range(sb, b);
    }
    lemma_accounted_same(img, sb, 0, z, img2, 0, z2);
}

/// An inode that stands in zeros is free.
proof fn lemma_zero_dinode(s: Seq<u8>, off: int)
    requires
        forall|i: int| off <= i < off + 64 ==> s[i] == 0,
    ensures
        DiskInode::decode(s, off).ftype == 0,
{
}

/// A new filesystem accounts for its blocks: the bitmap marks the metadata
/// blocks and the block of the root directory, which is the only inode in
/// use and holds that block alone.
pub proof fn lemma_fresh_accounted(fs_size: u32)
    requires
        meta_blocks(fs_size as int) + 1 <= fs_size,
    ensures
        ready(fresh_image(fs_size), fresh_superblock(fs_size)),
        accounted(fresh_image(fs_size), fresh_superblock(fs_size)),
        forall|i: int|
            2 <= i < fresh_superblock(fs_size).ninodes ==> (#[trigger] dinode_at(
                fresh_image(fs_size),
                fresh_superblock(fs_size),
                i,
            )).ftype == 0,
{
    let img = fresh_image(fs_size);
    let sb = fresh_superblock(fs_size);
    let start = meta_blocks(fs_size as int);
    let z = dinode_at(img, sb, 0);
    lemma_fresh_layout(fs_size);
    lemma_fresh_root(fs_size);
    assert(image_wf(img)) by {
        assert forall|b: int| 0 <= b < img.len() implies (#[trigger] img[b]).len() == 512 by {
            crate::codec::lemma_put32_seq_frame(zero_block(), 0, sb.words());
            let rd = root_dinode(fs_size as int);
            DiskInode::lemma_codec(rd, zero_block(), 64);
        }
    }
    let root = dinode_at(img, sb, ROOTINO as int);
    assert(root == root_dinode(fs_size as int));
    // every other inode is free
    assert forall|i: int| 2 <= i < sb.ninodes implies dinode_at(img, sb, i).ftype == 0 by {
        lemma_inode_block_range(sb, i);
        let blk = img[inode_block(sb, i)];
        let off = inode_offset(i);
        if inode_block(sb, i) == sb.inodestart {
            let rd = root_dinode(fs_size as int);
            DiskInode::lemma_codec(rd, zero_block(), 64);
            assert(off >= 128);
            let enc = DiskInode::encode(rd, zero_block(), 64);
            assert(blk == enc);
            assert forall|q: int| off <= q < off + 64 implies blk[q] == 0 by {
                assert(enc[q] == zero_block()[q]);
            }
            lemma_zero_dinode(blk, off);
        } else {
            assert(blk == zero_block());
            lemma_zero_dinode(blk, off);
        }
    }
    assert forall|i: int| in_use(img, sb, 0, z, i) implies i == 1 by {}
    assert forall|k: int| 0 <= k < places() implies held_at(img, root, k) == (if k == 0 {
        start as u32
    } else {
        0u32
    }) by {}
    assert forall|b: int| 0 <= b < sb.size implies is_used(img, sb, b) == (b <= start) by {
        lemma_fresh_bitmap(fs_size, b);
    }
    assert forall|b: int| is_data_block(sb, b) && #[trigger] is_used(img, sb, b) implies exists|
        i: int,
        k: int,
    |
        in_use(img, sb, 0, z, i) && 0 <= k < places() && #[trigger] holding(
            img,
            sb,
            0,
            z,
            i,
            k,
        ) == b by {
        assert(b == start);
        assert(in_use(img, sb, 0, z, 1));
        assert(holding(img, sb, 0, z, 1, 0) == start as u32);
    }
    assert(z.addrs.len() == 13);
}

/// What an inode holds in a place is one of the blocks that it holds.
pub proof fn lemma_own(img: Image, d: DiskInodeView, k: int)
    requires
        0 <= k < places(),
    ensures
        own(img, d).contains(held_at(img, d, k) as int),
{
}

/// What writing to the contents of an inode in use touches, block by
/// block: nothing before the bitmap, and no block that the bitmap marked
/// as used, but for those that the inode held; and what the inode holds
/// afterwards it held before or was free.
pub proof fn lemma_write_steps_frame(
    st: VolState,
    sb: SuperBlock,
    i0: int,
    d: DiskInodeView,
    src: Seq<u8>,
    off: int,
    n: int,
    tot: int,
)
    requires
        ready(st.image, sb),
        accounted_with(st.image, sb, i0, d),
        in_use(st.image, sb, i0, d, i0),
        0 <= off,
        0 <= tot <= n,
        off + n <= max_bytes(),
        n <= src.len(),
    ensures
        ({
            let (s1, d1, t, e) = write_steps(st, sb, d, src, off, n, tot);
            &&& keeps_low(s1.image, st.image, sb)
            &&& stays_used(s1.image, st.image, sb)
            &&& grown(s1.image, d1, st.image, d, sb)
            &&& keeps_used(s1.image, st.image, sb, own(st.image, d))
            &&& d.addrs[0] != 0 ==> d1.addrs[0] == d.addrs[0] && forall|q: int|
                0 <= q < 512 && q < off + tot ==> s1.image[d.addrs[0] as int][q]
                    == st.image[d.addrs[0] as int][q]
            &&& d1.size == d.size
            &&& d1.ftype == d.ftype
            &&& ready(s1.image, sb)
        }),
    decreases n - tot,
{
    lemma_write_steps(st, sb, i0, d, src, off, n, tot);
    if tot < n {
        let pos = off + tot;
        let bn = (pos / 512) as u32;
        assert(pos / 512 < MAXFILE) by {
            assert(max_bytes() == 140 * 512);
        }
        lemma_block_map(st, sb, i0, d, bn);
        let (s1, d1, r1) = block_map_spec(st, sb, d, bn);
        lemma_own(st.image, d, 12);
        let a = d.addrs[0];
        if a != 0 {
            assert(holding(st.image, sb, i0, d, i0, 0) == a);
            assert(holding(st.image, sb, i0, d, i0, 12) == d.addrs[12]);
            assert(held_at(s1.image, d1, 0) == held_at(st.image, d, 0));
            assert(s1.image[a as int] == st.image[a as int]);
        }
        if r1 is Ok {
            let p = r1->Ok_0;
            let m = span(pos, n - tot);
            let k0 = place_of(bn as int);
            let blk = put_bytes(s1.image[p as int], pos % 512, src.subrange(tot, tot + m));
            assert(is_data_block(sb, p as int));
            assert(blk.len() == 512);
            let (s2, r2) = bwrite_spec(s1, p, blk);
            if r2 is Ok {
                lemma_data_write(s1.image, sb, i0, d1, k0, blk);
                lemma_write_steps(s2, sb, i0, d1, src, off, n, tot + m);
                lemma_write_steps_frame(s2, sb, i0, d1, src, off, n, tot + m);
                let (s3, d3, t3, e3) = write_steps(s2, sb, d1, src, off, n, tot + m);
                if a != 0 {
                    assert(holding(s1.image, sb, i0, d1, i0, 0) == a);
                    assert(holding(s1.image, sb, i0, d1, i0, k0) == p);
                    if p == a {
                        assert(k0 == 0 && bn == 0);
                        assert(pos % 512 == pos);
                    }
                    assert forall|q: int| 0 <= q < 512 && q < pos implies s2.image[a as int][q]
                        == st.image[a as int][q] by {}
                }
                // the write to `p` changes what the inode holds, and nothing else
                assert(held_at(s1.image, d1, k0) == p);
                assert(holding(s1.image, sb, i0, d1, i0, 12) == d1.addrs[12]);
                assert(d1.addrs[12] != p);
                assert forall|k: int| 0 <= k < places() implies #[trigger] held_at(
                    s2.image,
                    d1,
                    k,
                ) == held_at(s1.image, d1, k) by {}
                lemma_bitmap_block_range(sb, p as int);
                assert forall|c: int| 0 <= c < sb.size implies is_used(s2.image, sb, c)
                    == is_used(s1.image, sb, c) by {
                    lemma_data_block_apart(sb, p as int, 0, c);
                }
                // from `st` to `s2`
                assert forall|k: int| 0 <= k < places() && #[trigger] held_at(
                    s2.image,
                    d1,
                    k,
                ) != 0 implies is_data_block(sb, held_at(s2.image, d1, k) as int) by {
                    assert(holding(s2.image, sb, i0, d1, i0, k) == held_at(s2.image, d1, k));
                }
                assert forall|v: int|
                    is_data_block(sb, v) && is_used(st.image, sb, v) && !own(st.image, d).contains(
                        v,
                    ) implies #[trigger] s2.image[v] == s1.image[v] by {
                    // `p` is held by the inode, or was free
                    assert(held_at(s1.image, d1, k0) == held_at(st.image, d, k0) || !is_used(
                        st.image,
                        sb,
                        p as int,
                    ));
                    lemma_own(st.image, d, k0);
                }
                lemma_frames_trans(
                    st.image,
                    d,
                    s1.image,
                    d1,
                    s2.image,
                    d1,
                    sb,
                    own(st.image, d),
                );
                // from `st` to the end
                assert forall|k: int| 0 <= k < places() && #[trigger] held_at(
                    s3.image,
                    d3,
                    k,
                ) != 0 implies is_data_block(sb, held_at(s3.image, d3, k) as int) by {
                    assert(holding(s3.image, sb, i0, d3, i0, k) == held_at(s3.image, d3, k));
                }
                assert forall|v: int|
                    is_data_block(sb, v) && is_used(st.image, sb, v) && !own(st.image, d).contains(
                        v,
                    ) implies #[trigger] s3.image[v] == s2.image[v] by {
                    assert(is_used(s2.image, sb, v));
                    if own(s2.image, d1).contains(v) {
                        let k = choose|k: int|
                            0 <= k < places() && #[trigger] held_at(s2.image, d1, k) == v;
                        assert(held_at(s2.image, d1, k) == held_at(st.image, d, k) || !is_used(
                            st.image,
                            sb,
                            held_at(s2.image, d1, k) as int,
                        ));
                        lemma_own(st.image, d, k);
                    }
                }
                lemma_frames_trans(
                    st.image,
                    d,
                    s2.image,
                    d1,
                    s3.image,
                    d3,
                    sb,
                    own(st.image, d),
                );
            }
        }
    }
}

/// The block that mapping finds for a logical block of an inode in use is
/// the block that the inode holds in the place of the logical block.
pub proof fn lemma_mapped_held(img: Image, sb: SuperBlock, i0: int, d: DiskInodeView, bn: int)
    requires
        ready(img, sb),
        accounted_with(img, sb, i0, d),
        in_use(img, sb, i0, d, i0),
        0 <= bn < MAXFILE,
    ensures
        mapped_spec(img, sb, d, bn) == Ok::<u32, FsError>(held_at(img, d, place_of(bn))),
{
    assert(holding(img, sb, i0, d, i0, place_of(bn)) == held_at(img, d, place_of(bn)));
    assert(holding(img, sb, i0, d, i0, 12) == d.addrs[12]);
}

/// The byte at a position of the contents of an inode in use is the byte
/// at its place in the block that the inode holds for it, and 0 if it
/// holds none.
pub proof fn lemma_content_held(img: Image, sb: SuperBlock, i0: int, d: DiskInodeView, pos: int)
    requires
        ready(img, sb),
        accounted_with(img, sb, i0, d),
        in_use(img, sb, i0, d, i0),
        0 <= pos < max_bytes(),
    ensures
        content_byte(img, sb, d, pos) == (if held_at(img, d, place_of(pos / 512)) == 0 {
            0u8
        } else {
            img[held_at(img, d, place_of(pos / 512)) as int][pos % 512]
        }),
{
    assert(max_bytes() == 140 * 512);
    lemma_mapped_held(img, sb, i0, d, pos / 512);
}

/// Byte `j` of `src` stands at position `off + j` of the contents of the
/// inode, in a block that the inode holds.
pub open spec fn holds_byte(
    img: Image,
    sb: SuperBlock,
    d: DiskInodeView,
    src: Seq<u8>,
    off: int,
    j: int,
) -> bool {
    held_at(img, d, place_of((off + j) / 512)) != 0 && content_byte(img, sb, d, off + j) == src[j]
}

/// The first `tot` bytes of `src` stand in the contents of the inode from
/// `off` on, in blocks that the inode holds.
#[verifier::opaque]
pub open spec fn holds_bytes(
    img: Image,
    sb: SuperBlock,
    d: DiskInodeView,
    src: Seq<u8>,
    off: int,
    tot: int,
) -> bool {
    forall|j: int| 0 <= j < tot ==> #[trigger] holds_byte(img, sb, d, src, off, j)
}

/// Mapping a logical block leaves what was written in the contents.
pub proof fn lemma_map_keeps_bytes(
    st: VolState,
    sb: SuperBlock,
    i0: int,
    d: DiskInodeView,
    bn: u32,
    src: Seq<u8>,
    off: int,
    tot: int,
)
    requires
        ready(st.image, sb),
        accounted_with(st.image, sb, i0, d),
        in_use(st.image, sb, i0, d, i0),
        0 <= off,
        0 <= tot,
        off + tot <= max_bytes(),
        holds_bytes(st.image, sb, d, src, off, tot),
    ensures
        ({
            let (s1, d1, r1) = block_map_spec(st, sb, d, bn);
            holds_bytes(s1.image, sb, d1, src, off, tot)
        }),
{
    reveal(holds_bytes);
    assert(max_bytes() == 140 * 512);
    lemma_block_map(st, sb, i0, d, bn);
    let (s1, d1, r1) = block_map_spec(st, sb, d, bn);
    assert(holding(st.image, sb, i0, d, i0, 12) == d.addrs[12]);
    assert forall|j: int| 0 <= j < tot implies #[trigger] holds_byte(
        s1.image,
        sb,
        d1,
        src,
        off,
        j,
    ) by {
        let k = place_of((off + j) / 512);
        let h = held_at(st.image, d, k);
        assert(0 <= (off + j) / 512 < 140);
        assert(holds_byte(st.image, sb, d, src, off, j));
        assert(holding(st.image, sb, i0, d, i0, k) == h);
        assert(held_at(s1.image, d1, k) == h);
        assert(s1.image[h as int] == st.image[h as int]);
        lemma_content_held(st.image, sb, i0, d, off + j);
        lemma_content_held(s1.image, sb, i0, d1, off + j);
    }
}

/// Putting the next bytes of `src` into the block that the inode holds
/// for them leaves what was written before, and the contents hold these
/// bytes too.
pub proof fn lemma_put_keeps_bytes(
    img: Image,
    sb: SuperBlock,
    i0: int,
    d: DiskInodeView,
    p: u32,
    src: Seq<u8>,
    off: int,
    tot: int,
    m: int,
)
    requires
        ready(img, sb),
        accounted_with(img, sb, i0, d),
        in_use(img, sb, i0, d, i0),
        0 <= off,
        0 <= tot,
        0 < m,
        tot + m <= src.len(),
        off + tot + m <= max_bytes(),
        (off + tot) % 512 + m <= 512,
        p != 0,
        p == held_at(img, d, place_of((off + tot) / 512)),
        holds_bytes(img, sb, d, src, off, tot),
    ensures
        ({
            let blk = put_bytes(img[p as int], (off + tot) % 512, src.subrange(tot, tot + m));
            &&& ready(img.update(p as int, blk), sb)
            &&& accounted_with(img.update(p as int, blk), sb, i0, d)
            &&& holds_bytes(img.update(p as int, blk), sb, d, src, off, tot + m)
        }),
{
    reveal(holds_bytes);
    assert(max_bytes() == 140 * 512);
    let pos = off + tot;
    let bn = pos / 512;
    let k0 = place_of(bn);
    let chunk = src.subrange(tot, tot + m);
    let blk = put_bytes(img[p as int], pos % 512, chunk);
    let img2 = img.update(p as int, blk);
    assert(holding(img, sb, i0, d, i0, k0) == p);
    assert(is_data_block(sb, p as int));
    lemma_data_write(img, sb, i0, d, k0, blk);
    assert(holding(img, sb, i0, d, i0, 12) == d.addrs[12]);
    assert(d.addrs[12] != p);
    assert forall|j: int| 0 <= j < tot + m implies #[trigger] holds_byte(
        img2,
        sb,
        d,
        src,
        off,
        j,
    ) by {
        let k = place_of((off + j) / 512);
        assert(0 <= (off + j) / 512 < 140);
        assert(held_at(img2, d, k) == held_at(img, d, k));
        lemma_content_held(img2, sb, i0, d, off + j);
        if j < tot {
            let h = held_at(img, d, k);
            assert(holds_byte(img, sb, d, src, off, j));
            lemma_content_held(img, sb, i0, d, off + j);
            assert(holding(img, sb, i0, d, i0, k) == h);
            if h == p {
                assert(k == k0);
                assert((off + j) / 512 == bn);
                assert((off + j) % 512 < pos % 512);
            }
        } else {
            assert((off + j) / 512 == bn);
            assert((off + j) % 512 == pos % 512 + (j - tot));
            assert(chunk[j - tot] == src[j]);
        }
    }
}

/// What was written is what the contents hold. Writing to the contents of
/// an inode in use, block by block, puts each byte that it writes at its
/// place in the contents, and leaves the bytes that it has written before
/// as they are.
pub proof fn lemma_write_steps_content(
    st: VolState,
    sb: SuperBlock,
    i0: int,
    d: DiskInodeView,
    src: Seq<u8>,
    off: int,
    n: int,
    tot: int,
)
    requires
        ready(st.image, sb),
        accounted_with(st.image, sb, i0, d),
        in_use(st.image, sb, i0, d, i0),
        0 <= off,
        0 <= tot <= n,
        off + n <= max_bytes(),
        n <= src.len(),
        holds_bytes(st.image, sb, d, src, off, tot),
    ensures
        ({
            let (s1, d1, t, e) = write_steps(st, sb, d, src, off, n, tot);
            &&& tot <= t <= n
            &&& e is None ==> t == n
            &&& holds_bytes(s1.image, sb, d1, src, off, t)
        }),
    decreases n - tot,
{
    if tot < n {
        let pos = off + tot;
        let bn = (pos / 512) as u32;
        assert(pos / 512 < MAXFILE) by {
            assert(max_bytes() == 140 * 512);
        }
        lemma_block_map(st, sb, i0, d, bn);
        lemma_map_keeps_bytes(st, sb, i0, d, bn, src, off, tot);
        let (s1, d1, r1) = block_map_spec(st, sb, d, bn);
        if r1 is Ok {
            let p = r1->Ok_0;
            let m = span(pos, n - tot);
            let blk = put_bytes(s1.image[p as int], pos % 512, src.subrange(tot, tot + m));
            let (s2, r2) = bwrite_spec(s1, p, blk);
            if r2 is Ok {
                assert(holding(s1.image, sb, i0, d1, i0, place_of(bn as int)) == held_at(
                    s1.image,
                    d1,
                    place_of(bn as int),
                ));
                lemma_put_keeps_bytes(s1.image, sb, i0, d1, p, src, off, tot, m);
                lemma_write_steps_content(s2, sb, i0, d1, src, off, n, tot + m);
            }
        }
    }
}

/// A read gives back what was written. Take a state of a volume whose
/// blocks are accounted for, and an inode of the volume that is in use.
/// If writing the first `n` bytes of `src` at offset `off` of the inode's
/// contents writes them all, then reading `n` bytes at `off` afterwards
/// gives these bytes, and the inode's size covers them.
pub proof fn lemma_winode_reads(
    st: VolState,
    sb: SuperBlock,
    inum: u32,
    src: Seq<u8>,
    dst: Seq<u8>,
    off: int,
    n: int,
)
    requires
        ready(st.image, sb),
        accounted(st.image, sb),
        1 <= inum < sb.ninodes,
        dinode_at(st.image, sb, inum as int).ftype != 0,
        0 <= off,
        0 < n <= src.len(),
        n <= dst.len(),
        n <= usize::MAX,
        winode_spec(st, sb, inum, src, off, n).1 == Ok::<usize, FsError>(n as usize),
    ensures
        ({
            let after = winode_spec(st, sb, inum, src, off, n).0.image;
            &&& dinode_at(after, sb, inum as int).size >= off + n
            &&& rinode_spec(after, sb, inum, dst, off, n) == (
                put_bytes(dst, 0, src.subrange(0, n)),
                Ok::<usize, FsError>(n as usize),
            )
        }),
{
    reveal(holds_bytes);
    assert(max_bytes() == 140 * 512);
    let i0 = inum as int;
    let blk = inode_block(sb, i0) as u32;
    lemma_inode_block_range(sb, i0);
    let (s0, r0) = reserve_spec(st, blk);
    let d = dinode_at(s0.image, sb, i0);
    lemma_accounted_focus(s0.image, sb, i0);
    let n1 = if off >= max_bytes() {
        0
    } else if n < max_bytes() - off {
        n
    } else {
        max_bytes() - off
    };
    let (s1, d1, tot, err) = write_steps(s0, sb, d, src, off, n1, 0);
    let (si, d2, ri) = iwrite_spec(s0, sb, d, src, off, n);
    if off >= max_bytes() {
        assert(write_steps(s0, sb, d, src, off, 0, 0) == (s0, d, 0int, None::<FsError>));
    } else {
        lemma_write_steps(s0, sb, i0, d, src, off, n1, 0);
        lemma_write_steps_content(s0, sb, i0, d, src, off, n1, 0);
    }
    assert(tot == n && n1 == n);
    lemma_accounted_resized(s1.image, sb, i0, d1, d2.size);
    assert(d2 == DiskInodeView { size: d2.size, ..d1 });
    assert(s1.logged.contains(blk));
    lemma_accounted_written(s1.image, sb, i0, d2);
    let after = s1.image.update(inode_block(sb, i0), dinode_block_with(s1.image, sb, i0, d2));
    assert(winode_spec(st, sb, inum, src, off, n).0.image == after);
    lemma_write_dinode(s1.image, sb, i0, d2, i0);
    lemma_accounted_focus(after, sb, i0);
    assert(holding(s1.image, sb, i0, d2, i0, 12) == d2.addrs[12]);
    assert forall|k: int| 0 <= k < places() implies #[trigger] held_at(after, d2, k) == held_at(
        s1.image,
        d1,
        k,
    ) by {}
    assert forall|j: int| 0 <= j < n implies held_at(after, d2, place_of((off + j) / 512)) != 0
        && #[trigger] content_byte(after, sb, d2, off + j) == src[j] by {
        let k = place_of((off + j) / 512);
        let h = held_at(s1.image, d1, k);
        assert(holds_byte(s1.image, sb, d1, src, off, j));
        assert(holding(s1.image, sb, i0, d2, i0, k) == h);
        assert(is_data_block(sb, h as int));
        lemma_content_held(s1.image, sb, i0, d2, off + j);
        lemma_content_held(after, sb, i0, d2, off + j);
        assert(content_byte(s1.image, sb, d2, off + j) == content_byte(s1.image, sb, d1, off + j)) by {
            lemma_content_same(s1.image, sb, d1, d2, off + j);
        }
    }
    assert(read_len(d2, off, n) == n);
    assert(readable(after, sb, d2, off / 512, block_end(off, n))) by {
        assert forall|bn: int| off / 512 <= bn < block_end(off, n) implies #[trigger] can_map(
            after,
            sb,
            d2,
            bn,
        ) by {
            lemma_can_map(after, sb, d2, bn);
            lemma_mapped_held(after, sb, i0, d2, bn);
        }
    }
    assert(content(after, sb, d2, off, n) =~= src.subrange(0, n));
}

/// The contents of an inode depend on its addresses alone.
pub proof fn lemma_content_same(
    img: Image,
    sb: SuperBlock,
    d1: DiskInodeView,
    d2: DiskInodeView,
    pos: int,
)
    requires
        d2.addrs == d1.addrs,
    ensures
        content_byte(img, sb, d2, pos) == content_byte(img, sb, d1, pos),
{
}

/// What writing to the contents of an inode in use leaves alone: what
/// lies before the bitmap, and every block in use that the inode did not
/// hold.
pub proof fn lemma_iwrite_frame(
    st: VolState,
    sb: SuperBlock,
    i0: int,
    d: DiskInodeView,
    src: Seq<u8>,
    off: int,
    n: int,
)
    requires
        ready(st.image, sb),
        accounted_with(st.image, sb, i0, d),
        in_use(st.image, sb, i0, d, i0),
        0 <= off,
        0 <= n <= src.len(),
    ensures
        ({
            let s1 = iwrite_spec(st, sb, d, src, off, n).0;
            &&& ready(s1.image, sb)
            &&& keeps_low(s1.image, st.image, sb)
            &&& keeps_used(s1.image, st.image, sb, own(st.image, d))
        }),
{
    let n1 = if off >= max_bytes() {
        0
    } else if n < max_bytes() - off {
        n
    } else {
        max_bytes() - off
    };
    if off >= max_bytes() {
        assert(write_steps(st, sb, d, src, off, 0, 0) == (st, d, 0int, None::<FsError>));
    } else {
        lemma_write_steps_frame(st, sb, i0, d, src, off, n1, 0);
    }
}

/// The inode that a path names in its parent directory, with the parent:
/// what removing the name works on.
pub open spec fn named_by(img: Image, sb: SuperBlock, path: Seq<u8>) -> Option<(u32, u32)> {
    match resolve_parent_spec(img, sb, path) {
        Err(_) => None,
        Ok(hit) => {
            let pd = dinode_at(img, sb, hit.0 as int);
            if pd.ftype != 2 {
                None
            } else {
                match dir_scan(img, sb, pd, hit.1, 0) {
                    Ok(Some(found)) => Some((hit.0, found.0)),
                    _ => None,
                }
            }
        },
    }
}

/// Removing the last name of an inode that nobody holds frees the inode.
/// Take a state of a volume whose blocks are accounted for, and a path
/// that names, in a directory other than itself, an inode in use that one
/// entry names and on which no handle is held. If removing the name
/// succeeds, then afterwards the inode's type on disk is 0, its size is 0,
/// and the bitmap says of each block that the inode held that it is free.
pub proof fn lemma_unlink_frees(st: VolState, s: Seq<Inode>, sb: SuperBlock, path: Seq<u8>)
    requires
        ready(st.image, sb),
        accounted(st.image, sb),
        named_by(st.image, sb, path) matches Some(pc) && pc.0 != pc.1 && !table_has(s, pc.1)
            && dinode_at(st.image, sb, pc.1 as int).ftype != 0 && dinode_at(
            st.image,
            sb,
            pc.1 as int,
        ).nlink == 1,
        s.len() <= usize::MAX,
        unlink_spec(st, s, sb, path).2 is Ok,
    ensures
        ({
            let pc = named_by(st.image, sb, path)->0;
            let c = pc.1;
            let after = unlink_spec(st, s, sb, path).0.image;
            let held = blocks_of(st.image, dinode_at(st.image, sb, c as int));
            &&& dinode_at(after, sb, c as int).ftype == 0
            &&& dinode_at(after, sb, c as int).size == 0
            &&& forall|j: int|
                0 <= j < held.len() && held[j] != 0 ==> !is_used(
                    after,
                    sb,
                    (#[trigger] held[j]) as int,
                )
        }),
{
    let (pnum, name) = resolve_parent_spec(st.image, sb, path)->Ok_0;
    lemma_walk_named(st.image, sb, ROOTINO, crate::path::names_of(path).drop_last(), 0);
    let pd = dinode_at(st.image, sb, pnum as int);
    lemma_dir_scan_named(st.image, sb, pd, name, 0);
    let pc = named_by(st.image, sb, path)->0;
    let c = pc.1;
    let cd = dinode_at(st.image, sb, c as int);
    let (t1, g1) = get_inode_spec(s, sb, c);
    assert(g1 is Ok);
    let ip = g1->Ok_0;
    assert(slot_of(t1, c, ip.slot as int) && t1[ip.slot as int].refs == 1) by {
        let i = choose|i: int| crate::inode::first_free_slot(s, i);
        assert(crate::inode::first_free_slot(s, i));
        assert(crate::inode::table_slot(s, c) == i);
        assert(ip.slot == i);
    }
    lemma_unlink_entry_accounted(st, sb, pnum, name, c);
    let (s4, r4) = unlink_entry_spec(st, sb, pnum, pd, name, c);
    assert(r4 is Ok);
    lemma_unlink_entry_child(st, sb, pnum, name, c);
    let cd4 = dinode_at(s4.image, sb, c as int);
    assert(cd4.nlink == 0 && cd4.ftype != 0);
    assert(release_spec(s4, t1, sb, ip).2 is Ok);
    lemma_drop_inode_frees(s4, sb, c, cd4);
}

/// Removing an entry from a directory leaves the inode that it named as
/// it was, but for the count of its entries, which is one less; and what
/// that inode holds it holds as before.
pub proof fn lemma_unlink_entry_child(
    st: VolState,
    sb: SuperBlock,
    pnum: u32,
    name: Seq<u8>,
    c: u32,
)
    requires
        ready(st.image, sb),
        accounted(st.image, sb),
        1 <= pnum < sb.ninodes,
        1 <= c < sb.ninodes,
        c != pnum,
        dinode_at(st.image, sb, pnum as int).ftype != 0,
        dinode_at(st.image, sb, c as int).ftype != 0,
        unlink_entry_spec(st, sb, pnum, dinode_at(st.image, sb, pnum as int), name, c).1 is Ok,
    ensures
        ({
            let pd = dinode_at(st.image, sb, pnum as int);
            let cd = dinode_at(st.image, sb, c as int);
            let s4 = unlink_entry_spec(st, sb, pnum, pd, name, c).0;
            &&& dinode_at(s4.image, sb, c as int) == linked_once_less(cd)
            &&& blocks_of(s4.image, linked_once_less(cd)) == blocks_of(st.image, cd)
        }),
{
    let pd = dinode_at(st.image, sb, pnum as int);
    let cd = dinode_at(st.image, sb, c as int);
    lemma_inode_block_range(sb, pnum as int);
    lemma_inode_block_range(sb, c as int);
    let pblk = inode_block(sb, pnum as int) as u32;
    let cblk = inode_block(sb, c as int) as u32;
    let s0 = reserve_spec(st, pblk).0;
    let s1 = reserve_spec(s0, cblk).0;
    assert(s1.image == st.image);
    lemma_accounted_focus(s1.image, sb, pnum as int);
    lemma_dir_unlink(s1, sb, pnum as int, pd, name);
    let (s2, pd2, r2) = dir_unlink_spec(s1, sb, pd, name);
    match dir_scan(s1.image, sb, pd, name, 0) {
        Ok(Some((inum, off))) => {
            lemma_iwrite_frame(
                s1,
                sb,
                pnum as int,
                pd,
                crate::dir::entry_bytes(0, Seq::empty()),
                off as int,
                32,
            );
        },
        _ => {},
    }
    assert(keeps_low(s2.image, st.image, sb));
    assert(s2.image[inode_block(sb, c as int)] == st.image[inode_block(sb, c as int)]);
    assert(dinode_at(s2.image, sb, c as int) == cd);
    assert(s2.logged.contains(pblk) && s2.logged.contains(cblk));
    lemma_accounted_written(s2.image, sb, pnum as int, pd2);
    lemma_write_dinode(s2.image, sb, pnum as int, pd2, c as int);
    let s3 = bwrite_spec(s2, pblk, dinode_block_with(s2.image, sb, pnum as int, pd2)).0;
    assert(dinode_at(s3.image, sb, c as int) == cd);
    lemma_write_dinode(s3.image, sb, c as int, linked_once_less(cd), c as int);
    let s4 = unlink_entry_spec(st, sb, pnum, pd, name, c).0;
    assert(s4.image == s3.image.update(
        inode_block(sb, c as int),
        dinode_block_with(s3.image, sb, c as int, linked_once_less(cd)),
    ));
    // the indirect block of the inode is as it was
    let ind = cd.addrs[12];
    if ind != 0 {
        assert(holding(st.image, sb, pnum as int, pd, c as int, 12) == ind);
        assert(in_use(st.image, sb, pnum as int, pd, c as int));
        assert(is_data_block(sb, ind as int) && is_used(st.image, sb, ind as int));
        if own(st.image, pd).contains(ind as int) {
            let k = choose|k: int| 0 <= k < places() && #[trigger] held_at(st.image, pd, k) == ind;
            assert(holding(st.image, sb, pnum as int, pd, pnum as int, k) == ind);
        }
        assert(s2.image[ind as int] == st.image[ind as int]);
        assert(s4.image[ind as int] == st.image[ind as int]);
    }
}

/// What truncating an inode does to the bitmap and to the inode when it
/// succeeds: the bitmap says of each block that the inode held, directly,
/// behind its indirect block, or as its indirect block, that it is free,
/// and says of every other block what it said; the inode holds no block,
/// and is else as it was.
pub proof fn lemma_truncate_frees(st: VolState, sb: SuperBlock, d: DiskInodeView)
    requires
        ready(st.image, sb),
        d.addrs.len() == 13,
        truncate_spec(st, sb, d).2 is Ok,
    ensures
        ({
            let (s1, d1, r1) = truncate_spec(st, sb, d);
            let held = blocks_of(st.image, d);
            &&& d1 == without_blocks(d)
            &&& forall|k: int| 0 <= k < 13 ==> d1.addrs[k] == 0
            &&& d1.ftype == d.ftype && d1.nlink == d.nlink && d1.size == d.size
            &&& forall|j: int|
                0 <= j < held.len() && held[j] != 0 ==> !is_used(
                    s1.image,
                    sb,
                    (#[trigger] held[j]) as int,
                )
            &&& forall|c: int|
                0 <= c < sb.size && (forall|j: int|
                    0 <= j < held.len() && held[j] != 0 ==> held[j] != c) ==> is_used(
                    s1.image,
                    sb,
                    c,
                ) == #[trigger] is_used(st.image, sb, c)
        }),
{
    let held = blocks_of(st.image, d);
    lemma_reserve_list(st, sb, held, held.len() as int);
    let sr = reserve_list_spec(st, sb, held, held.len() as int).0;
    lemma_free_list_clears(sr, sb, held, held.len() as int);
}

/// Taking a new block into an empty direct place, or as the indirect
/// block, marks that block and no other, and changes that place and no
/// other.
pub proof fn lemma_take_direct(st: VolState, sb: SuperBlock, i0: int, d: DiskInodeView, k0: int)
    requires
        ready(st.image, sb),
        accounted_with(st.image, sb, i0, d),
        in_use(st.image, sb, i0, d, i0),
        0 <= k0 < 13,
        d.addrs[k0] == 0,
        balloc_spec(st, sb).1 is Ok,
    ensures
        ({
            let (s1, r1) = balloc_spec(st, sb);
            let b = r1->Ok_0;
            let d2 = with_addr(d, k0, b);
            &&& b != 0
            &&& is_data_block(sb, b as int)
            &&& !is_used(st.image, sb, b as int)
            &&& is_used(s1.image, sb, b as int)
            &&& held_at(s1.image, d2, k0) == b
            &&& forall|c: int|
                0 <= c < sb.size && c != b ==> is_used(s1.image, sb, c) == #[trigger] is_used(
                    st.image,
                    sb,
                    c,
                )
            &&& forall|k: int|
                0 <= k < places() && k != k0 ==> #[trigger] held_at(s1.image, d2, k) == held_at(
                    st.image,
                    d,
                    k,
                )
        }),
{
    let (s1, r1) = balloc_spec(st, sb);
    let b = r1->Ok_0;
    let d2 = with_addr(d, k0, b);
    lemma_balloc_image(st, sb);
    lemma_bitmap_block_range(sb, b as int);
    assert forall|c: int| 0 <= c < sb.size && c != b implies is_used(s1.image, sb, c)
        == #[trigger] is_used(st.image, sb, c) by {
        lemma_balloc_marks(st, sb, c);
    }
    lemma_balloc_marks(st, sb, b as int);
    assert(holding(st.image, sb, i0, d, i0, 12) == d.addrs[12]);
    assert forall|k: int| 0 <= k < places() && k != k0 implies #[trigger] held_at(
        s1.image,
        d2,
        k,
    ) == held_at(st.image, d, k) by {
        if k >= 13 {
            if k0 == 12 {
                assert(s1.image[b as int] == zero_block());
                lemma_le32_same(s1.image[b as int], zero_block(), 4 * (k - 13));
                assert(le32(zero_block(), 4 * (k - 13)) == 0);
            } else if d.addrs[12] != 0 {
                let ind = d.addrs[12];
                assert(is_data_block(sb, ind as int) && is_used(st.image, sb, ind as int));
                assert(s1.image[ind as int] == st.image[ind as int]);
            }
        }
    }
}

/// Taking a new block into an empty place behind the indirect block marks
/// that block and no other, and changes that place and no other.
pub proof fn lemma_take_indirect(st: VolState, sb: SuperBlock, i0: int, d: DiskInodeView, k: int)
    requires
        ready(st.image, sb),
        accounted_with(st.image, sb, i0, d),
        in_use(st.image, sb, i0, d, i0),
        d.addrs[12] != 0,
        0 <= k < 128,
        held_at(st.image, d, 13 + k) == 0,
        indirect_map_spec(st, sb, d.addrs[12], k).1 is Ok,
    ensures
        ({
            let (s1, r1) = indirect_map_spec(st, sb, d.addrs[12], k);
            let b = r1->Ok_0;
            &&& b != 0
            &&& is_data_block(sb, b as int)
            &&& !is_used(st.image, sb, b as int)
            &&& is_used(s1.image, sb, b as int)
            &&& held_at(s1.image, d, 13 + k) == b
            &&& forall|c: int|
                0 <= c < sb.size && c != b ==> is_used(s1.image, sb, c) == #[trigger] is_used(
                    st.image,
                    sb,
                    c,
                )
            &&& forall|j: int|
                0 <= j < places() && j != 13 + k ==> #[trigger] held_at(s1.image, d, j) == held_at(
                    st.image,
                    d,
                    j,
                )
        }),
{
    reveal(indirect_map_spec);
    let ind = d.addrs[12];
    assert(holding(st.image, sb, i0, d, i0, 12) == ind);
    assert(is_data_block(sb, ind as int) && is_used(st.image, sb, ind as int));
    let sr = reserve_spec(st, ind).0;
    assert(sr.image == st.image);
    lemma_balloc_image(sr, sb);
    let (s2, r2) = balloc_spec(sr, sb);
    let b = r2->Ok_0;
    lemma_balloc_marks(sr, sb, b as int);
    lemma_bitmap_block_range(sb, b as int);
    assert(b != ind);
    assert(s2.image[ind as int] == st.image[ind as int]);
    let blk = put32(s2.image[ind as int], 4 * k, b);
    let s1 = indirect_map_spec(st, sb, ind, k).0;
    lemma_balloc_keeps_logged(sr, sb, ind);
    assert(s1.image == s2.image.update(ind as int, blk));
    lemma_le32_put32(s2.image[ind as int], 4 * k, b);
    assert forall|c: int| 0 <= c < sb.size && c != b implies is_used(s1.image, sb, c)
        == #[trigger] is_used(st.image, sb, c) by {
        lemma_balloc_marks(sr, sb, c);
        lemma_data_block_apart(sb, ind as int, 0, c);
    }
    assert(is_used(s1.image, sb, b as int)) by {
        lemma_data_block_apart(sb, ind as int, 0, b as int);
    }
    assert forall|j: int| 0 <= j < places() && j != 13 + k implies #[trigger] held_at(
        s1.image,
        d,
        j,
    ) == held_at(st.image, d, j) by {
        if j >= 13 {
            lemma_le32_same(blk, s2.image[ind as int], 4 * (j - 13));
        }
    }
}

/// An allocation by mapping takes free blocks and changes nothing else.
/// Take an inode in use, in a state whose blocks are accounted for, that
/// holds no block for logical block `bn`. If mapping `bn` succeeds, then
/// the block that it gives was free and is in use now, and the inode holds
/// it in the place of `bn`. If the inode had no indirect block and `bn`
/// lies behind one, the indirect block that it has now was free and is in
/// use too. The bitmap says of every other block what it said, and the
/// inode holds in every other place what it held.
pub proof fn lemma_block_map_exact(st: VolState, sb: SuperBlock, i0: int, d: DiskInodeView, bn: u32)
    requires
        ready(st.image, sb),
        accounted_with(st.image, sb, i0, d),
        in_use(st.image, sb, i0, d, i0),
        bn < MAXFILE,
        held_at(st.image, d, place_of(bn as int)) == 0,
        block_map_spec(st, sb, d, bn).2 is Ok,
    ensures
        ({
            let (s1, d1, r1) = block_map_spec(st, sb, d, bn);
            let p = r1->Ok_0;
            let k0 = place_of(bn as int);
            let grew = bn >= 12 && d.addrs[12] == 0;
            let ind = d1.addrs[12];
            &&& !is_used(st.image, sb, p as int)
            &&& is_used(s1.image, sb, p as int)
            &&& held_at(s1.image, d1, k0) == p
            &&& grew ==> ind != 0 && !is_used(st.image, sb, ind as int) && is_used(
                s1.image,
                sb,
                ind as int,
            )
            &&& forall|c: int|
                0 <= c < sb.size && c != p && !(grew && c == ind) ==> is_used(s1.image, sb, c)
                    == #[trigger] is_used(st.image, sb, c)
            &&& forall|k: int|
                0 <= k < places() && k != k0 && !(grew && k == 12) ==> #[trigger] held_at(
                    s1.image,
                    d1,
                    k,
                ) == held_at(st.image, d, k)
        }),
{
    reveal(block_map_spec);
    if bn < NDIRECT {
        lemma_take_direct(st, sb, i0, d, bn as int);
    } else if d.addrs[12] != 0 {
        assert(holding(st.image, sb, i0, d, i0, 12) == d.addrs[12]);
        lemma_take_indirect(st, sb, i0, d, bn - NDIRECT);
    } else {
        let (sa, ra) = balloc_spec(st, sb);
        let ind = ra->Ok_0;
        let da = with_addr(d, 12, ind);
        lemma_take_direct(st, sb, i0, d, 12);
        lemma_alloc_direct(st, sb, i0, d, 12);
        lemma_balloc_image(st, sb);
        let k = bn - NDIRECT;
        assert(held_at(sa.image, da, 13 + k) == held_at(st.image, d, 13 + k));
        lemma_take_indirect(sa, sb, i0, da, k as int);
        let (s1, r1) = indirect_map_spec(sa, sb, ind, k as int);
        let p = r1->Ok_0;
        assert(is_used(sa.image, sb, ind as int));
        assert(p != ind);
        assert forall|c: int| 0 <= c < sb.size && c != p && c != ind implies is_used(
            s1.image,
            sb,
            c,
        ) == #[trigger] is_used(st.image, sb, c) by {
            assert(is_used(sa.image, sb, c) == is_used(st.image, sb, c));
        }
        assert forall|j: int| 0 <= j < places() && j != 13 + k && j != 12 implies #[trigger] held_at(
            s1.image,
            da,
            j,
        ) == held_at(st.image, d, j) by {
            assert(held_at(sa.image, da, j) == held_at(st.image, d, j));
        }
        assert(is_used(s1.image, sb, ind as int) == is_used(sa.image, sb, ind as int));
        assert(!is_used(st.image, sb, p as int)) by {
            assert(is_data_block(sb, p as int));
            assert(is_used(st.image, sb, p as int) == is_used(sa.image, sb, p as int));
        }
    }
}

/// An allocation takes the lowest free block of the data area: every
/// block of the data area before the one that it gives is in use.
pub proof fn lemma_balloc_lowest(st: VolState, sb: SuperBlock)
    requires
        ready(st.image, sb),
        balloc_spec(st, sb).1 is Ok,
    ensures
        is_first_free(st.image, sb, balloc_spec(st, sb).1->Ok_0 as int),
{
    reveal(balloc_spec);
    let b = first_free(st.image, sb);
    assert(is_first_free(st.image, sb, b));
}

/// What is read after a clean unmount and a mount is what was read before.
/// Take a volume outside a transaction. The image that its device holds
/// can be mounted, and on the image after recovery every path leads where
/// it led and every read of an inode gives what it gave.
pub proof fn lemma_remount_reads<D: BlockDevice>(
    v: &Volume<D>,
    path: Seq<u8>,
    inum: u32,
    dst: Seq<u8>,
    off: int,
    n: int,
)
    requires
        v.inv(),
        !v.in_txn(),
    ensures
        ({
            let again = recovered(v.durable(), v.sb.logstart as int, v.sb.nlog as int);
            &&& mountable(v.durable())
            &&& SuperBlock::decode(v.durable()[1], 0) == v.sb
            &&& resolve_spec(again, v.sb, path) == resolve_spec(v.image(), v.sb, path)
            &&& dinode_at(again, v.sb, inum as int) == dinode_at(v.image(), v.sb, inum as int)
            &&& rinode_spec(again, v.sb, inum, dst, off, n) == rinode_spec(
                v.image(),
                v.sb,
                inum,
                dst,
                off,
                n,
            )
        }),
{
    v.lemma_remount();
}

} // verus!
