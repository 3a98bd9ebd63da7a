//! The first two entries of a directory: every directory names itself by
//! `.` in its first entry and its parent by `..` in its second, where the
//! parent of a directory is the directory that it was made in, and the
//! root directory is its own parent. A new filesystem meets the rule, a
//! new directory is made with both entries, and no operation on files and
//! directories touches the two entries again, unless it is told to remove
//! the name `.` or `..` or to write into the first 64 bytes of a
//! directory. This file states the rule and proves that.

use vstd::prelude::*;
use crate::accounting::{
    accounted, accounted_with, bitmap_apart, held_at, holding, in_use, inode_in, keeps_low,
    keeps_used, lemma_accounted_focus, lemma_accounted_idle, lemma_accounted_retyped,
    lemma_accounted_written, lemma_balloc_image, lemma_create_accounted, lemma_create_handle,
    lemma_dir_link, lemma_dir_scan_named, lemma_dir_unlink, lemma_drop_contents_accounted,
    lemma_fresh_accounted, lemma_iwrite, lemma_truncate, lemma_unlink_entry_accounted,
    lemma_walk_named, lemma_write_dinode, lemma_write_steps_frame, own, places, ready,
};
use crate::bitmap::{is_data_block, is_used};
use crate::codec::{lemma_le32_same, put_bytes, Record};
use crate::dir::{
    dir_link_spec, dir_scan, dir_slot, dir_unlink_spec, entry_at, entry_bytes, entry_count,
    lemma_entry_write, lemma_first_entries, mapped_spec, resolve_parent_spec,
};
use crate::file::{mkdir_spec, open_inode_spec, OpenMode};
use crate::fs::{image_wf, FileType, FsError, Image, ROOTINO};
use crate::inode::{
    block_map_spec, blocks_of, create_spec, dinode_at, dinode_block_with, dirlink_spec,
    dirunlink_spec, dot_name, dotdot_name, drop_contents_spec, drop_inode_spec, emptied_dinode,
    enter_spec, find_inode_spec, first_entries_spec, free_inode, free_list_spec, freed_dinode,
    fresh_dinode, get_inode_spec, inode_block, is_first_free_inode, iwrite_spec,
    lemma_inode_block_range, linked_once_less, linked_once_more, make_spec, max_bytes, name_is,
    padded, release_spec, reserve_list_spec, span, truncate_spec, undo_spec, unlink_entry_spec,
    unlink_spec, winode_spec, write_steps, DirEntry, DirEntryView, DiskInodeView, Inode, InodePtr,
};
use crate::log::same_outside_log;
use crate::mkfs::{fresh_image, fresh_superblock, lemma_fresh_root, meta_blocks};
use crate::path::{
    canonical, is_dot, is_dotdot, lemma_canonical, lemma_names_plain, lemma_normalize_plain,
    names_of, normalize, DOT,
};
use crate::superblock::SuperBlock;
use crate::volume::{bwrite_spec, reserve_spec, VolState};

verus! {

/// If the inode `d`, with number `i`, is a directory, it has its first two
/// entries: at offset 0 the name `.` for itself, at offset 32 the name
/// `..` for its parent. The map `up` tells the parent of each directory:
/// the directory that it was made in.
pub open spec fn dotted(img: Image, sb: SuperBlock, up: Map<int, u32>, i: int, d: DiskInodeView) -> bool {
    d.ftype == 2 ==> {
        &&& d.size >= 64
        &&& entry_at(img, sb, d, 0) == Ok::<DirEntryView, FsError>(
            DirEntryView { inum: i as u32, name: padded(dot_name(), 28) },
        )
        &&& entry_at(img, sb, d, 32) matches Ok(e) && 1 <= e.inum < sb.ninodes && e.name
            == padded(dotdot_name(), 28) && up.dom().contains(i) && e.inum == up[i]
    }
}

/// The parents in a new filesystem: the root directory is its own parent.
pub open spec fn root_up() -> Map<int, u32> {
    Map::empty().insert(ROOTINO as int, ROOTINO)
}

/// The parents after a directory was made as inode `i` in the directory
/// `p`.
pub open spec fn made_in(up: Map<int, u32>, i: int, p: u32) -> Map<int, u32> {
    up.insert(i, p)
}

/// Every directory of the volume but inode `i0` has its first two entries.
pub open spec fn others_dotted(img: Image, sb: SuperBlock, up: Map<int, u32>, i0: int) -> bool {
    forall|i: int|
        1 <= i < sb.ninodes && i != i0 ==> dotted(img, sb, up, i, #[trigger] dinode_at(img, sb, i))
}

/// Every directory of the volume has its first two entries.
pub open spec fn all_dotted(img: Image, sb: SuperBlock, up: Map<int, u32>) -> bool {
    others_dotted(img, sb, up, 0)
}

/// The entry at an offset of the first block depends on the first address
/// of the inode and on the 32 bytes of the entry alone.
pub proof fn lemma_entry_same(
    img: Image,
    d: DiskInodeView,
    img1: Image,
    d1: DiskInodeView,
    sb: SuperBlock,
    off: int,
)
    requires
        0 <= off <= 480,
        d1.addrs[0] == d.addrs[0],
        img[d.addrs[0] as int].len() == 512,
        img1[d.addrs[0] as int].len() == 512,
        forall|q: int|
            off <= q < off + 32 ==> img1[d.addrs[0] as int][q] == img[d.addrs[0] as int][q],
    ensures
        entry_at(img1, sb, d1, off) == entry_at(img, sb, d, off),
{
    let a = d.addrs[0] as int;
    assert(off / 512 == 0 && off % 512 == off);
    assert(mapped_spec(img1, sb, d1, 0) == mapped_spec(img, sb, d, 0));
    lemma_le32_same(img1[a], img[a], off);
    assert(img1[a].subrange(off + 4, off + 32) =~= img[a].subrange(off + 4, off + 32));
}

/// A directory with its first two entries has a first block, which is a
/// block of the data area.
pub proof fn lemma_dotted_block(img: Image, sb: SuperBlock, up: Map<int, u32>, i: int, d: DiskInodeView)
    requires
        dotted(img, sb, up, i, d),
        d.ftype == 2,
    ensures
        is_data_block(sb, d.addrs[0] as int),
{
    assert(0int / 512 == 0 && 32int / 512 == 0);
    let e = entry_at(img, sb, d, 32)->Ok_0;
    assert(e.inum != 0);
}

/// A directory keeps its first two entries where its inode, its first
/// address and the first 64 bytes of its first block stay.
pub proof fn lemma_dotted_same(
    img: Image,
    d: DiskInodeView,
    img1: Image,
    d1: DiskInodeView,
    sb: SuperBlock,
    up: Map<int, u32>,
    i: int,
)
    requires
        dotted(img, sb, up, i, d),
        d1.ftype == d.ftype,
        d1.ftype == 2 ==> d1.size >= 64 && d1.addrs[0] == d.addrs[0] && img[d.addrs[0] as int].len()
            == 512 && img1[d.addrs[0] as int].len() == 512 && forall|q: int|
            0 <= q < 64 ==> img1[d.addrs[0] as int][q] == img[d.addrs[0] as int][q],
    ensures
        dotted(img1, sb, up, i, d1),
{
    if d1.ftype == 2 {
        lemma_entry_same(img, d, img1, d1, sb, 0);
        lemma_entry_same(img, d, img1, d1, sb, 32);
    }
}

/// Writing the inode that an operation has worked on: if the other
/// directories had their entries, and the inode has them, then all
/// directories have them.
pub proof fn lemma_dots_written(img: Image, sb: SuperBlock, up: Map<int, u32>, i0: int, d: DiskInodeView)
    requires
        ready(img, sb),
        1 <= i0 < sb.ninodes,
        d.addrs.len() == 13,
        others_dotted(img, sb, up, i0),
    ensures
        others_dotted(
            img.update(inode_block(sb, i0), dinode_block_with(img, sb, i0, d)),
            sb,
            up,
            i0,
        ),
        dotted(img, sb, up, i0, d) ==> all_dotted(
            img.update(inode_block(sb, i0), dinode_block_with(img, sb, i0, d)),
            sb,
            up,
        ),
{
    let ib = inode_block(sb, i0);
    let img1 = img.update(ib, dinode_block_with(img, sb, i0, d));
    lemma_inode_block_range(sb, i0);
    assert forall|i: int|
        1 <= i < sb.ninodes && (i != i0 || dotted(img, sb, up, i0, d)) implies dotted(
        img1,
        sb,
        up,
        i,
        #[trigger] dinode_at(img1, sb, i),
    ) by {
        lemma_write_dinode(img, sb, i0, d, i);
        let di = inode_in(img, sb, i0, d, i);
        assert(dinode_at(img1, sb, i) == di);
        if i != i0 {
            assert(dotted(img, sb, up, i, dinode_at(img, sb, i)));
        }
        assert(dotted(img, sb, up, i, di));
        if di.ftype == 2 {
            lemma_dotted_block(img, sb, up, i, di);
            lemma_dotted_same(img, di, img1, di, sb, up, i);
        }
    }
}

/// Where all directories have their entries, all but any one have them.
pub proof fn lemma_dots_focus(img: Image, sb: SuperBlock, up: Map<int, u32>, i0: int)
    requires
        all_dotted(img, sb, up),
    ensures
        others_dotted(img, sb, up, i0),
        1 <= i0 < sb.ninodes ==> dotted(img, sb, up, i0, dinode_at(img, sb, i0)),
{
}

/// The other directories keep their entries through work on the contents
/// of inode `i0`: work that leaves alone the inodes and every block in
/// use that inode `i0` did not hold.
pub proof fn lemma_dots_framed(
    img: Image,
    sb: SuperBlock,
    up: Map<int, u32>,
    i0: int,
    d: DiskInodeView,
    img1: Image,
)
    requires
        ready(img, sb),
        ready(img1, sb),
        accounted_with(img, sb, i0, d),
        in_use(img, sb, i0, d, i0),
        others_dotted(img, sb, up, i0),
        keeps_low(img1, img, sb),
        keeps_used(img1, img, sb, own(img, d)),
    ensures
        others_dotted(img1, sb, up, i0),
{
    assert forall|i: int| 1 <= i < sb.ninodes && i != i0 implies dotted(
        img1,
        sb,
        up,
        i,
        #[trigger] dinode_at(img1, sb, i),
    ) by {
        lemma_inode_block_range(sb, i);
        let di = dinode_at(img, sb, i);
        assert(img1[inode_block(sb, i)] == img[inode_block(sb, i)]);
        assert(dinode_at(img1, sb, i) == di);
        assert(dotted(img, sb, up, i, di));
        if di.ftype == 2 {
            lemma_dotted_block(img, sb, up, i, di);
            let a = di.addrs[0];
            assert(holding(img, sb, i0, d, i, 0) == a);
            assert(in_use(img, sb, i0, d, i));
            assert(is_used(img, sb, a as int));
            if own(img, d).contains(a as int) {
                let k = choose|k: int| 0 <= k < places() && #[trigger] held_at(img, d, k) == a;
                assert(holding(img, sb, i0, d, i0, k) == a);
            }
            assert(img1[a as int] == img[a as int]);
            lemma_dotted_same(img, di, img1, di, sb, up, i);
        }
    }
}

/// Writing to the contents of the inode that is worked on keeps the
/// first entries of the directories, where a directory is written at
/// offset 64 or behind it.
pub proof fn lemma_iwrite_dots(
    st: VolState,
    sb: SuperBlock,
    up: Map<int, u32>,
    i0: int,
    d: DiskInodeView,
    src: Seq<u8>,
    off: int,
    n: int,
)
    requires
        ready(st.image, sb),
        accounted_with(st.image, sb, i0, d),
        in_use(st.image, sb, i0, d, i0),
        others_dotted(st.image, sb, up, i0),
        0 <= off,
        0 <= n <= src.len(),
    ensures
        ({
            let (s1, d1, r1) = iwrite_spec(st, sb, d, src, off, n);
            &&& others_dotted(s1.image, sb, up, i0)
            &&& dotted(st.image, sb, up, i0, d) && (d.ftype == 2 ==> off >= 64) ==> dotted(
                s1.image,
                sb,
                up,
                i0,
                d1,
            )
        }),
{
    let n1 = if off >= max_bytes() {
        0
    } else if n < max_bytes() - off {
        n
    } else {
        max_bytes() - off
    };
    let (s1, d1, tot, err) = write_steps(st, sb, d, src, off, n1, 0);
    let (si, d2, ri) = iwrite_spec(st, sb, d, src, off, n);
    if off >= max_bytes() {
        assert(write_steps(st, sb, d, src, off, 0, 0) == (st, d, 0int, None::<FsError>));
        if d.ftype == 2 && dotted(st.image, sb, up, i0, d) {
            lemma_dotted_block(st.image, sb, up, i0, d);
            lemma_dotted_same(st.image, d, st.image, d2, sb, up, i0);
        }
    } else {
        lemma_write_steps_frame(st, sb, i0, d, src, off, n1, 0);
        lemma_dots_framed(st.image, sb, up, i0, d, s1.image);
        if d.ftype == 2 && dotted(st.image, sb, up, i0, d) && off >= 64 {
            lemma_dotted_block(st.image, sb, up, i0, d);
            lemma_dotted_same(st.image, d, s1.image, d2, sb, up, i0);
        }
    }
}

/// Whether a name is `.` or `..`, as the first two entries of a directory
/// hold them.
pub open spec fn reserved_name(name: Seq<u8>) -> bool {
    name_is(padded(dot_name(), 28), name) || name_is(padded(dotdot_name(), 28), name)
}

/// The place that a scan for a free entry gives lies at or behind the
/// entry at which the scan began.
pub proof fn lemma_dir_slot_from(img: Image, sb: SuperBlock, d: DiskInodeView, i: int)
    requires
        0 <= i <= entry_count(d),
    ensures
        dir_slot(img, sb, d, i) matches Ok(off) ==> off >= 32 * i,
    decreases entry_count(d) - i,
{
    assert(max_bytes() == 71680);
    if i < entry_count(d) {
        lemma_dir_slot_from(img, sb, d, i + 1);
    }
}

/// The place at which a scan finds a name lies at or behind the entry at
/// which the scan began.
pub proof fn lemma_dir_scan_from(
    img: Image,
    sb: SuperBlock,
    d: DiskInodeView,
    name: Seq<u8>,
    i: int,
)
    requires
        0 <= i <= entry_count(d),
    ensures
        dir_scan(img, sb, d, name, i) matches Ok(Some(hit)) ==> hit.1 >= 32 * i,
    decreases entry_count(d) - i,
{
    assert(max_bytes() == 71680);
    if i < entry_count(d) {
        lemma_dir_scan_from(img, sb, d, name, i + 1);
    }
}

/// Entering a name in the directory that is worked on keeps the first
/// entries of the other directories, and its own if it has them.
pub proof fn lemma_dir_link_dots(
    st: VolState,
    sb: SuperBlock,
    up: Map<int, u32>,
    i0: int,
    d: DiskInodeView,
    name: Seq<u8>,
    inum: u32,
)
    requires
        ready(st.image, sb),
        accounted_with(st.image, sb, i0, d),
        in_use(st.image, sb, i0, d, i0),
        others_dotted(st.image, sb, up, i0),
    ensures
        ({
            let (s1, d1, r1) = dir_link_spec(st, sb, d, name, inum);
            &&& others_dotted(s1.image, sb, up, i0)
            &&& dotted(st.image, sb, up, i0, d) ==> dotted(s1.image, sb, up, i0, d1)
        }),
{
    if name.len() <= 28 {
        match dir_scan(st.image, sb, d, name, 0) {
            Ok(None) => {
                match dir_slot(st.image, sb, d, 0) {
                    Ok(off) => {
                        if d.ftype == 2 && dotted(st.image, sb, up, i0, d) {
                            assert(max_bytes() == 71680);
                            assert(entry_count(d) >= 2);
                            lemma_dir_slot_from(st.image, sb, d, 2);
                            assert(dir_slot(st.image, sb, d, 0) == dir_slot(
                                st.image,
                                sb,
                                d,
                                1,
                            ));
                            assert(dir_slot(st.image, sb, d, 1) == dir_slot(
                                st.image,
                                sb,
                                d,
                                2,
                            ));
                        }
                        lemma_iwrite_dots(
                            st,
                            sb,
                            up,
                            i0,
                            d,
                            entry_bytes(inum, name),
                            off as int,
                            32,
                        );
                    },
                    Err(_) => {},
                }
            },
            _ => {},
        }
    }
}

/// Removing a name other than `.` and `..` from the directory that is
/// worked on keeps the first entries of the other directories, and its
/// own if it has them.
pub proof fn lemma_dir_unlink_dots(
    st: VolState,
    sb: SuperBlock,
    up: Map<int, u32>,
    i0: int,
    d: DiskInodeView,
    name: Seq<u8>,
)
    requires
        ready(st.image, sb),
        accounted_with(st.image, sb, i0, d),
        in_use(st.image, sb, i0, d, i0),
        others_dotted(st.image, sb, up, i0),
        !reserved_name(name),
    ensures
        ({
            let (s1, d1, r1) = dir_unlink_spec(st, sb, d, name);
            &&& others_dotted(s1.image, sb, up, i0)
            &&& dotted(st.image, sb, up, i0, d) ==> dotted(s1.image, sb, up, i0, d1)
        }),
{
    match dir_scan(st.image, sb, d, name, 0) {
        Ok(Some((inum, off))) => {
            if d.ftype == 2 && dotted(st.image, sb, up, i0, d) {
                assert(max_bytes() == 71680);
                assert(entry_count(d) >= 2);
                lemma_dir_scan_from(st.image, sb, d, name, 2);
                assert(dir_scan(st.image, sb, d, name, 0) == dir_scan(st.image, sb, d, name, 1));
                assert(dir_scan(st.image, sb, d, name, 1) == dir_scan(st.image, sb, d, name, 2));
            }
            lemma_iwrite_dots(st, sb, up, i0, d, entry_bytes(0, Seq::empty()), off as int, 32);
        },
        _ => {},
    }
}

/// The first entries of a directory are a matter of its type, its size,
/// its first address and its first block: an inode that differs in
/// nothing of these has them too.
pub proof fn lemma_dotted_fields(img: Image, sb: SuperBlock, up: Map<int, u32>, i: int, d: DiskInodeView, d2: DiskInodeView)
    requires
        ready(img, sb),
        dotted(img, sb, up, i, d),
        d2.ftype == d.ftype,
        d2.size == d.size,
        d2.addrs == d.addrs,
    ensures
        dotted(img, sb, up, i, d2),
{
    if d.ftype == 2 {
        lemma_dotted_block(img, sb, up, i, d);
        lemma_dotted_same(img, d, img, d2, sb, up, i);
    }
}

/// The directories keep their first entries where the bitmap alone
/// changes.
pub proof fn lemma_dots_bitmap(img: Image, img1: Image, sb: SuperBlock, up: Map<int, u32>, i0: int)
    requires
        ready(img, sb),
        ready(img1, sb),
        img1.len() == img.len(),
        others_dotted(img, sb, up, i0),
        bitmap_apart(img1, img, sb),
    ensures
        others_dotted(img1, sb, up, i0),
        forall|i: int| 0 <= i < sb.ninodes ==> dinode_at(img1, sb, i) == dinode_at(img, sb, i),
{
    assert forall|i: int| 0 <= i < sb.ninodes implies dinode_at(img1, sb, i) == dinode_at(
        img,
        sb,
        i,
    ) by {
        lemma_inode_block_range(sb, i);
    }
    assert forall|i: int| 1 <= i < sb.ninodes && i != i0 implies dotted(
        img1,
        sb,
        up,
        i,
        #[trigger] dinode_at(img1, sb, i),
    ) by {
        let di = dinode_at(img, sb, i);
        assert(dotted(img, sb, up, i, di));
        if di.ftype == 2 {
            lemma_dotted_block(img, sb, up, i, di);
            lemma_dotted_same(img, di, img1, di, sb, up, i);
        }
    }
}

/// Writing to the contents of an inode keeps the first entries of the
/// directories. Take a state of a volume whose blocks are accounted for
/// and whose directories have their first entries, and an inode of the
/// volume that is in use. After writing to the inode's contents, in a
/// directory at offset 64 or behind it, all directories have their first
/// entries.
pub proof fn lemma_winode_dots(
    st: VolState,
    sb: SuperBlock,
    up: Map<int, u32>,
    inum: u32,
    src: Seq<u8>,
    off: int,
    n: int,
)
    requires
        ready(st.image, sb),
        accounted(st.image, sb),
        all_dotted(st.image, sb, up),
        1 <= inum < sb.ninodes,
        dinode_at(st.image, sb, inum as int).ftype != 0,
        dinode_at(st.image, sb, inum as int).ftype == 2 ==> off >= 64,
        0 <= off,
        0 <= n <= src.len(),
    ensures
        all_dotted(winode_spec(st, sb, inum, src, off, n).0.image, sb, up),
{
    let blk = inode_block(sb, inum as int) as u32;
    lemma_inode_block_range(sb, inum as int);
    let (s0, r0) = reserve_spec(st, blk);
    if r0 is Ok {
        let d = dinode_at(s0.image, sb, inum as int);
        lemma_accounted_focus(s0.image, sb, inum as int);
        lemma_dots_focus(s0.image, sb, up, inum as int);
        lemma_iwrite(s0, sb, inum as int, d, src, off, n);
        lemma_iwrite_dots(s0, sb, up, inum as int, d, src, off, n);
        let (s1, d1, r1) = iwrite_spec(s0, sb, d, src, off, n);
        assert(s1.logged.contains(blk));
        lemma_dots_written(s1.image, sb, up, inum as int, d1);
    }
}

/// Entering a name in a directory keeps the first entries of the
/// directories; see `lemma_winode_dots`.
pub proof fn lemma_dirlink_dots(
    st: VolState,
    sb: SuperBlock,
    up: Map<int, u32>,
    dnum: u32,
    name: Seq<u8>,
    inum: u32,
)
    requires
        ready(st.image, sb),
        accounted(st.image, sb),
        all_dotted(st.image, sb, up),
        1 <= dnum < sb.ninodes,
        dinode_at(st.image, sb, dnum as int).ftype != 0,
    ensures
        all_dotted(dirlink_spec(st, sb, dnum, name, inum).0.image, sb, up),
{
    let blk = inode_block(sb, dnum as int) as u32;
    lemma_inode_block_range(sb, dnum as int);
    let (s0, r0) = reserve_spec(st, blk);
    if r0 is Ok {
        let d = dinode_at(s0.image, sb, dnum as int);
        lemma_accounted_focus(s0.image, sb, dnum as int);
        lemma_dots_focus(s0.image, sb, up, dnum as int);
        lemma_dir_link(s0, sb, dnum as int, d, name, inum);
        lemma_dir_link_dots(s0, sb, up, dnum as int, d, name, inum);
        let (s1, d1, r1) = dir_link_spec(s0, sb, d, name, inum);
        assert(s1.logged.contains(blk));
        lemma_dots_written(s1.image, sb, up, dnum as int, d1);
    }
}

/// Removing a name other than `.` and `..` from a directory keeps the
/// first entries of the directories; see `lemma_winode_dots`.
pub proof fn lemma_dirunlink_dots(st: VolState, sb: SuperBlock, up: Map<int, u32>, dnum: u32, name: Seq<u8>)
    requires
        ready(st.image, sb),
        accounted(st.image, sb),
        all_dotted(st.image, sb, up),
        1 <= dnum < sb.ninodes,
        dinode_at(st.image, sb, dnum as int).ftype != 0,
        !reserved_name(name),
    ensures
        all_dotted(dirunlink_spec(st, sb, dnum, name).0.image, sb, up),
{
    let blk = inode_block(sb, dnum as int) as u32;
    lemma_inode_block_range(sb, dnum as int);
    let (s0, r0) = reserve_spec(st, blk);
    if r0 is Ok {
        let d = dinode_at(s0.image, sb, dnum as int);
        lemma_accounted_focus(s0.image, sb, dnum as int);
        lemma_dots_focus(s0.image, sb, up, dnum as int);
        lemma_dir_unlink(s0, sb, dnum as int, d, name);
        lemma_dir_unlink_dots(s0, sb, up, dnum as int, d, name);
        let (s1, d1, r1) = dir_unlink_spec(s0, sb, d, name);
        assert(s1.logged.contains(blk));
        lemma_dots_written(s1.image, sb, up, dnum as int, d1);
    }
}

/// Freeing an inode keeps the first entries of the directories. Take a
/// state of a volume whose blocks are accounted for and in which all
/// directories but inode `inum` have their first entries. After inode
/// `inum`, which is in use, was freed, all directories have their first
/// entries; and if it could not be freed, its inode and the first entries
/// of the other directories are as they were.
pub proof fn lemma_drop_inode_dots(st: VolState, sb: SuperBlock, up: Map<int, u32>, inum: u32)
    requires
        ready(st.image, sb),
        accounted(st.image, sb),
        others_dotted(st.image, sb, up, inum as int),
        1 <= inum < sb.ninodes,
        dinode_at(st.image, sb, inum as int).ftype != 0,
    ensures
        ({
            let d = dinode_at(st.image, sb, inum as int);
            let (s1, r1) = drop_inode_spec(st, sb, inum, d);
            &&& r1 is Ok ==> all_dotted(s1.image, sb, up)
            &&& others_dotted(s1.image, sb, up, inum as int)
            &&& dotted(st.image, sb, up, inum as int, d) ==> all_dotted(s1.image, sb, up)
        }),
{
    let d = dinode_at(st.image, sb, inum as int);
    let blk = inode_block(sb, inum as int) as u32;
    lemma_inode_block_range(sb, inum as int);
    let (s0, r0) = reserve_spec(st, blk);
    if r0 is Ok {
        lemma_accounted_focus(s0.image, sb, inum as int);
        lemma_truncate(s0, sb, inum as int, d);
        let (s1, d1, r1) = truncate_spec(s0, sb, d);
        lemma_dots_bitmap(s0.image, s1.image, sb, up, inum as int);
        if r1 is Ok {
            assert(s1.logged.contains(blk));
            lemma_dots_written(s1.image, sb, up, inum as int, freed_dinode(d1));
            lemma_dots_focus(
                s1.image.update(
                    inode_block(sb, inum as int),
                    dinode_block_with(s1.image, sb, inum as int, freed_dinode(d1)),
                ),
                sb,
                up,
                inum as int,
            );
        }
    }
}

/// Taking the contents of an inode that is no directory away keeps the
/// first entries of the directories.
pub proof fn lemma_drop_contents_dots(st: VolState, sb: SuperBlock, up: Map<int, u32>, inum: u32)
    requires
        ready(st.image, sb),
        accounted(st.image, sb),
        all_dotted(st.image, sb, up),
        1 <= inum < sb.ninodes,
        dinode_at(st.image, sb, inum as int).ftype != 0,
        dinode_at(st.image, sb, inum as int).ftype != 2,
    ensures
        ({
            let d = dinode_at(st.image, sb, inum as int);
            all_dotted(drop_contents_spec(st, sb, inum, d).0.image, sb, up)
        }),
{
    let d = dinode_at(st.image, sb, inum as int);
    let blk = inode_block(sb, inum as int) as u32;
    lemma_inode_block_range(sb, inum as int);
    let (s0, r0) = reserve_spec(st, blk);
    if r0 is Ok {
        lemma_accounted_focus(s0.image, sb, inum as int);
        lemma_dots_focus(s0.image, sb, up, inum as int);
        lemma_truncate(s0, sb, inum as int, d);
        let (s1, d1, r1) = truncate_spec(s0, sb, d);
        lemma_dots_bitmap(s0.image, s1.image, sb, up, 0);
        if r1 is Ok {
            assert(s1.logged.contains(blk));
            lemma_dots_focus(s1.image, sb, up, inum as int);
            lemma_dots_written(s1.image, sb, up, inum as int, emptied_dinode(d1));
        }
    }
}

/// Giving back a handle keeps the first entries of the directories.
pub proof fn lemma_release_dots(st: VolState, s: Seq<Inode>, sb: SuperBlock, up: Map<int, u32>, ip: InodePtr)
    requires
        ready(st.image, sb),
        accounted(st.image, sb),
        all_dotted(st.image, sb, up),
        1 <= ip.inum < sb.ninodes,
    ensures
        all_dotted(release_spec(st, s, sb, ip).0.image, sb, up),
{
    let d = dinode_at(st.image, sb, ip.inum as int);
    if !(s[ip.slot as int].refs != 1 || d.nlink != 0 || d.ftype == 0) {
        lemma_dots_focus(st.image, sb, up, ip.inum as int);
        lemma_drop_inode_dots(st, sb, up, ip.inum);
    }
}

/// A new directory gets both of its first entries or nothing: where
/// giving it its first entries fails, the state is as it was and the new
/// inode holds no block.
pub proof fn lemma_first_entries_undone(st: VolState, sb: SuperBlock, inum: u32, parent: u32)
    requires
        ready(st.image, sb),
        inum != 0,
    ensures
        ({
            let (s2, d2, r2) = first_entries_spec(st, sb, FileType::Dir, inum, parent);
            r2 is Err ==> s2 == st && d2 == fresh_dinode(FileType::Dir)
        }),
{
    reveal(block_map_spec);
    let dot = dot_name();
    let dotdot = dotdot_name();
    let d0 = fresh_dinode(FileType::Dir);
    let e_dot = DirEntryView { inum, name: padded(dot, 28) };
    let z32 = Seq::new(32, |i: int| 0u8);
    DirEntry::lemma_codec(e_dot, z32, 0);
    let b_dot = entry_bytes(inum, dot);
    let b_dotdot = entry_bytes(parent, dotdot);
    assert(max_bytes() == 71680);
    assert(span(0, 32) == 32 && span(32, 32) == 32);
    assert(dir_scan(st.image, sb, d0, dot, 0) == Ok::<Option<(u32, u32)>, FsError>(None));
    assert(dir_slot(st.image, sb, d0, 0) == Ok::<u32, FsError>(0u32));
    lemma_balloc_image(st, sb);
    let (m1, e1, q1) = block_map_spec(st, sb, d0, 0u32);
    match q1 {
        Err(e) => {
            assert(write_steps(st, sb, d0, b_dot, 0, 32, 0) == (st, d0, 0int, Some(e)));
        },
        Ok(p) => {
            let blk = put_bytes(m1.image[p as int], 0, b_dot.subrange(0, 32));
            let (m2, q2) = bwrite_spec(m1, p, blk);
            assert(q2 is Ok);
            assert(write_steps(m2, sb, e1, b_dot, 0, 32, 32) == (m2, e1, 32int, None::<FsError>));
            assert(write_steps(st, sb, d0, b_dot, 0, 32, 0) == (m2, e1, 32int, None::<FsError>));
            lemma_entry_write(st, sb, d0, b_dot, 0);
            let (s1, d1, r1) = dir_link_spec(st, sb, d0, dot, inum);
            assert(r1 is Ok && s1 == m2);
            let b = d1.addrs[0];
            assert(b == p);
            let blk1 = s1.image[b as int];
            assert(mapped_spec(s1.image, sb, d1, 0) == Ok::<u32, FsError>(b));
            assert(DirEntry::decode(blk1, 0) == e_dot) by {
                lemma_le32_same(blk1, b_dot, 0);
                assert(blk1.subrange(4, 32) =~= b_dot.subrange(4, 32));
            }
            assert(entry_count(d1) == 1);
            assert(entry_at(s1.image, sb, d1, 0) == Ok::<DirEntryView, FsError>(e_dot));
            assert(!name_is(e_dot.name, dotdot)) by {
                assert(padded(dot, 28)[1] == 0u8);
                assert(padded(dotdot, 28)[1] == crate::path::DOT);
            }
            assert(dir_scan(s1.image, sb, d1, dotdot, 0) == Ok::<Option<(u32, u32)>, FsError>(
                None,
            )) by {
                assert(dir_scan(s1.image, sb, d1, dotdot, 1) == Ok::<
                    Option<(u32, u32)>,
                    FsError,
                >(None));
            }
            assert(dir_slot(s1.image, sb, d1, 0) == Ok::<u32, FsError>(32u32)) by {
                assert(dir_slot(s1.image, sb, d1, 1) == Ok::<u32, FsError>(32u32));
            }
            // the second entry goes to the block of the first
            assert(block_map_spec(s1, sb, d1, 0u32) == (s1, d1, Ok::<u32, FsError>(b)));
            let blk2 = put_bytes(s1.image[b as int], 32, b_dotdot.subrange(0, 32));
            let (m3, q3) = bwrite_spec(s1, b, blk2);
            assert(s1.logged.contains(b));
            assert(q3 is Ok);
            assert(write_steps(m3, sb, d1, b_dotdot, 32, 32, 32) == (
                m3,
                d1,
                32int,
                None::<FsError>,
            ));
            assert(write_steps(s1, sb, d1, b_dotdot, 32, 32, 0) == (
                m3,
                d1,
                32int,
                None::<FsError>,
            )) by {
                assert((32int + 0) / 512 == 0 && (32int + 0) % 512 == 32);
            }
            assert(iwrite_spec(s1, sb, d1, b_dotdot, 32, 32).2 == Ok::<usize, FsError>(32));
        },
    }
}

/// Reserving and freeing the blocks of a list that names none changes
/// nothing and succeeds.
pub proof fn lemma_blank_list(st: VolState, sb: SuperBlock, list: Seq<u32>, k: int)
    requires
        sb.layout_ok(),
        0 <= k <= list.len(),
        forall|j: int| 0 <= j < list.len() ==> list[j] == 0,
    ensures
        reserve_list_spec(st, sb, list, k) == (st, Ok::<(), FsError>(())),
        free_list_spec(st, sb, list, k) == (st, Ok::<(), FsError>(())),
    decreases k,
{
    if k > 0 {
        lemma_blank_list(st, sb, list, k - 1);
    }
}

/// Writing an inode again that differs in nothing that its first entries
/// rest on keeps the first entries of the directories.
pub proof fn lemma_rewrite_dots(st: VolState, sb: SuperBlock, up: Map<int, u32>, inum: u32, d2: DiskInodeView)
    requires
        ready(st.image, sb),
        all_dotted(st.image, sb, up),
        1 <= inum < sb.ninodes,
        d2.addrs == dinode_at(st.image, sb, inum as int).addrs,
        d2.ftype == dinode_at(st.image, sb, inum as int).ftype,
        d2.size == dinode_at(st.image, sb, inum as int).size,
    ensures
        all_dotted(
            bwrite_spec(
                st,
                inode_block(sb, inum as int) as u32,
                dinode_block_with(st.image, sb, inum as int, d2),
            ).0.image,
            sb,
            up,
        ),
{
    lemma_inode_block_range(sb, inum as int);
    lemma_dots_focus(st.image, sb, up, inum as int);
    lemma_dotted_fields(st.image, sb, up, inum as int, dinode_at(st.image, sb, inum as int), d2);
    lemma_dots_written(st.image, sb, up, inum as int, d2);
}

/// Taking a new inode back keeps the first entries of the directories.
pub proof fn lemma_undo_dots(st: VolState, sb: SuperBlock, up: Map<int, u32>, i: u32)
    requires
        ready(st.image, sb),
        accounted(st.image, sb),
        all_dotted(st.image, sb, up),
        1 <= i < sb.ninodes,
    ensures
        all_dotted(undo_spec(st, sb, i).image, sb, up),
{
    if dinode_at(st.image, sb, i as int).ftype != 0 {
        lemma_dots_focus(st.image, sb, up, i as int);
        lemma_drop_inode_dots(st, sb, up, i);
    }
}

/// Taking back a new inode that holds no block, and whose block the open
/// transaction holds, frees it: afterwards all directories have their
/// first entries if all but that inode had them.
pub proof fn lemma_undo_blank(st: VolState, sb: SuperBlock, up: Map<int, u32>, i: u32)
    requires
        ready(st.image, sb),
        accounted(st.image, sb),
        others_dotted(st.image, sb, up, i as int),
        1 <= i < sb.ninodes,
        st.logged.contains(inode_block(sb, i as int) as u32),
        forall|k: int| 0 <= k < 13 ==> dinode_at(st.image, sb, i as int).addrs[k] == 0,
    ensures
        all_dotted(undo_spec(st, sb, i).image, sb, up),
{
    let cd = dinode_at(st.image, sb, i as int);
    if cd.ftype != 0 {
        lemma_drop_inode_dots(st, sb, up, i);
        let list = blocks_of(st.image, cd);
        lemma_blank_list(st, sb, list, list.len() as int);
        assert(truncate_spec(st, sb, cd).2 is Ok);
    } else {
        assert forall|j: int| 1 <= j < sb.ninodes implies dotted(
            st.image,
            sb,
            up,
            j,
            #[trigger] dinode_at(st.image, sb, j),
        ) by {}
    }
}

/// Entering a new inode in its parent keeps the first entries of the
/// directories.
pub proof fn lemma_enter_dots(
    st: VolState,
    sb: SuperBlock,
    up: Map<int, u32>,
    pnum: u32,
    name: Seq<u8>,
    ftype: FileType,
    i: u32,
)
    requires
        ready(st.image, sb),
        accounted(st.image, sb),
        all_dotted(st.image, sb, up),
        1 <= pnum < sb.ninodes,
        1 <= i < sb.ninodes,
        st.logged.contains(inode_block(sb, pnum as int) as u32),
    ensures
        all_dotted(enter_spec(st, sb, pnum, name, ftype, i).0.image, sb, up),
{
    let pd = dinode_at(st.image, sb, pnum as int);
    lemma_inode_block_range(sb, pnum as int);
    if pd.ftype != 2 {
        lemma_undo_dots(st, sb, up, i);
    } else {
        lemma_accounted_focus(st.image, sb, pnum as int);
        lemma_dots_focus(st.image, sb, up, pnum as int);
        lemma_dir_link(st, sb, pnum as int, pd, name, i);
        lemma_dir_link_dots(st, sb, up, pnum as int, pd, name, i);
        let (s3, pd3, r3) = dir_link_spec(st, sb, pd, name, i);
        let pd4 = if r3 is Ok && ftype == FileType::Dir {
            linked_once_more(pd3)
        } else {
            pd3
        };
        lemma_dotted_fields(s3.image, sb, up, pnum as int, pd3, pd4);
        lemma_dots_written(s3.image, sb, up, pnum as int, pd4);
        lemma_accounted_retyped(s3.image, sb, pnum as int, pd3, pd4);
        lemma_accounted_written(s3.image, sb, pnum as int, pd4);
        let (s4, r4) = bwrite_spec(
            s3,
            inode_block(sb, pnum as int) as u32,
            dinode_block_with(s3.image, sb, pnum as int, pd4),
        );
        assert(r4 is Ok);
        if r3 is Err {
            lemma_undo_dots(s4, sb, up, i);
        }
    }
}

/// The parents after an inode was made in the directory `p`, if one could
/// be made: the first inode that is free has `p` as its parent.
pub open spec fn made_up(up: Map<int, u32>, img: Image, sb: SuperBlock, p: u32) -> Map<int, u32> {
    match free_inode(img, sb) {
        Some(i) => made_in(up, i as int, p),
        None => up,
    }
}

/// The parents after the path was created, if it could be created: the
/// parent of what was made is the directory that holds its name.
pub open spec fn grown_up(up: Map<int, u32>, img: Image, sb: SuperBlock, path: Seq<u8>) -> Map<
    int,
    u32,
> {
    match resolve_parent_spec(img, sb, path) {
        Ok(hit) => made_up(up, img, sb, hit.0),
        Err(_) => up,
    }
}

/// The parents after the path was opened: as after it was created, in the
/// creating mode, and as before else.
pub open spec fn opened_up(
    up: Map<int, u32>,
    img: Image,
    sb: SuperBlock,
    path: Seq<u8>,
    omod: OpenMode,
) -> Map<int, u32> {
    if omod == OpenMode::OCreate {
        grown_up(up, img, sb, path)
    } else {
        up
    }
}

/// The directories other than inode `i` have their first entries whatever
/// the parent of inode `i` is; and so have all directories if inode `i` is
/// none.
pub proof fn lemma_up_other(img: Image, sb: SuperBlock, up: Map<int, u32>, i: int, p: u32)
    requires
        others_dotted(img, sb, up, i),
    ensures
        others_dotted(img, sb, made_in(up, i, p), i),
        dinode_at(img, sb, i).ftype != 2 ==> all_dotted(img, sb, made_in(up, i, p)),
{
    let up2 = made_in(up, i, p);
    assert forall|j: int| 1 <= j < sb.ninodes && j != i implies dotted(
        img,
        sb,
        up2,
        j,
        #[trigger] dinode_at(img, sb, j),
    ) by {
        assert(dotted(img, sb, up, j, dinode_at(img, sb, j)));
    }
}

/// Making a new inode keeps the first entries of the directories, and a
/// new directory has them: it names itself by `.` and the directory that
/// it was made in by `..`.
pub proof fn lemma_make_dots(
    st: VolState,
    s: Seq<Inode>,
    sb: SuperBlock,
    up: Map<int, u32>,
    pnum: u32,
    pd: DiskInodeView,
    name: Seq<u8>,
    ftype: FileType,
)
    requires
        ready(st.image, sb),
        accounted(st.image, sb),
        all_dotted(st.image, sb, up),
        1 <= pnum < sb.ninodes,
        ftype != FileType::Free,
    ensures
        all_dotted(
            make_spec(st, s, sb, pnum, pd, name, ftype).0.image,
            sb,
            made_up(up, st.image, sb, pnum),
        ),
{
    match free_inode(st.image, sb) {
        None => {},
        Some(i) => {
            lemma_dots_focus(st.image, sb, up, i as int);
            lemma_up_other(st.image, sb, up, i as int, pnum);
        },
    }
    if !(name.len() > 28) && !(ftype == FileType::Dir && pd.nlink == 0xffff) {
        match free_inode(st.image, sb) {
            None => {},
            Some(i) => {
                let c = choose|c: int| is_first_free_inode(st.image, sb, c);
                assert(1 <= i < sb.ninodes && dinode_at(st.image, sb, i as int).ftype == 0);
                let up0 = up;
                let up = made_in(up0, i as int, pnum);
                lemma_inode_block_range(sb, pnum as int);
                lemma_inode_block_range(sb, i as int);
                let pblk = inode_block(sb, pnum as int) as u32;
                let iblk = inode_block(sb, i as int) as u32;
                let (s0, r0) = reserve_spec(st, pblk);
                if r0 is Ok {
                    let (s1, r1) = reserve_spec(s0, iblk);
                    if r1 is Ok {
                        assert(s1.image == st.image);
                        let d0 = fresh_dinode(ftype);
                        lemma_accounted_focus(s1.image, sb, i as int);
                        lemma_accounted_idle(
                            s1.image,
                            sb,
                            i as int,
                            dinode_at(s1.image, sb, i as int),
                            d0,
                        );
                        assert(others_dotted(s1.image, sb, up, i as int));
                        let (s2, d2, r2) = first_entries_spec(s1, sb, ftype, i, pnum);
                        if ftype == FileType::Dir {
                            lemma_dir_link(s1, sb, i as int, d0, dot_name(), i);
                            lemma_dir_link_dots(s1, sb, up, i as int, d0, dot_name(), i);
                            let (sa, da, ra) = dir_link_spec(s1, sb, d0, dot_name(), i);
                            if ra is Ok {
                                lemma_dir_link(sa, sb, i as int, da, dotdot_name(), pnum);
                                lemma_dir_link_dots(sa, sb, up, i as int, da, dotdot_name(), pnum);
                            }
                            if r2 is Ok {
                                lemma_first_entries(s1, sb, i, pnum);
                            } else {
                                lemma_first_entries_undone(s1, sb, i, pnum);
                            }
                        }
                        assert(accounted_with(s2.image, sb, i as int, d2));
                        assert(others_dotted(s2.image, sb, up, i as int));
                        assert(s2.logged.contains(iblk) && s2.logged.contains(pblk));
                        lemma_accounted_written(s2.image, sb, i as int, d2);
                        lemma_dots_written(s2.image, sb, up, i as int, d2);
                        let (s3, r3) = bwrite_spec(
                            s2,
                            iblk,
                            dinode_block_with(s2.image, sb, i as int, d2),
                        );
                        assert(r3 is Ok);
                        if r2 is Err {
                            lemma_write_dinode(s2.image, sb, i as int, d2, i as int);
                            lemma_undo_blank(s3, sb, up, i);
                        } else {
                            assert(dotted(s2.image, sb, up, i as int, d2));
                            lemma_enter_dots(s3, sb, up, pnum, name, ftype, i);
                        }
                    }
                }
            },
        }
    }
}

/// Creating a path keeps the first entries of the directories. Take a
/// state of a volume whose blocks are accounted for and whose directories
/// have their first entries. After a path was created as a file or a
/// directory, or could not be created, all directories have their first
/// entries; a new directory names itself by `.` and the directory that
/// holds its name by `..`.
pub proof fn lemma_create_dots(
    st: VolState,
    s: Seq<Inode>,
    sb: SuperBlock,
    up: Map<int, u32>,
    path: Seq<u8>,
    ftype: FileType,
)
    requires
        ready(st.image, sb),
        accounted(st.image, sb),
        all_dotted(st.image, sb, up),
        ftype != FileType::Free,
    ensures
        all_dotted(
            create_spec(st, s, sb, path, ftype).0.image,
            sb,
            grown_up(up, st.image, sb, path),
        ),
{
    match resolve_parent_spec(st.image, sb, path) {
        Err(e) => {},
        Ok((pnum, name)) => {
            match free_inode(st.image, sb) {
                None => {},
                Some(i) => {
                    lemma_dots_focus(st.image, sb, up, i as int);
                    lemma_up_other(st.image, sb, up, i as int, pnum);
                },
            }
            lemma_walk_named(
                st.image,
                sb,
                ROOTINO,
                crate::path::names_of(path).drop_last(),
                0,
            );
            let pd = dinode_at(st.image, sb, pnum as int);
            if pd.ftype == 2 {
                match dir_scan(st.image, sb, pd, name, 0) {
                    Ok(None) => {
                        lemma_make_dots(st, s, sb, up, pnum, pd, name, ftype);
                    },
                    _ => {},
                }
            }
        },
    }
}

/// Removing an entry other than `.` and `..`, and counting one entry
/// fewer for what it named, keeps the first entries of the directories.
pub proof fn lemma_unlink_entry_dots(
    st: VolState,
    sb: SuperBlock,
    up: Map<int, u32>,
    pnum: u32,
    name: Seq<u8>,
    c: u32,
)
    requires
        ready(st.image, sb),
        accounted(st.image, sb),
        all_dotted(st.image, sb, up),
        1 <= pnum < sb.ninodes,
        1 <= c < sb.ninodes,
        dinode_at(st.image, sb, pnum as int).ftype != 0,
        !reserved_name(name),
    ensures
        ({
            let pd = dinode_at(st.image, sb, pnum as int);
            all_dotted(unlink_entry_spec(st, sb, pnum, pd, name, c).0.image, sb, up)
        }),
{
    let pd = dinode_at(st.image, sb, pnum as int);
    lemma_inode_block_range(sb, pnum as int);
    lemma_inode_block_range(sb, c as int);
    let pblk = inode_block(sb, pnum as int) as u32;
    let cblk = inode_block(sb, c as int) as u32;
    let (s0, r0) = reserve_spec(st, pblk);
    if r0 is Ok {
        let (s1, r1) = reserve_spec(s0, cblk);
        if r1 is Ok {
            assert(s1.image == st.image);
            lemma_accounted_focus(s1.image, sb, pnum as int);
            lemma_dots_focus(s1.image, sb, up, pnum as int);
            lemma_dir_unlink(s1, sb, pnum as int, pd, name);
            lemma_dir_unlink_dots(s1, sb, up, pnum as int, pd, name);
            let (s2, pd2, r2) = dir_unlink_spec(s1, sb, pd, name);
            assert(s2.logged.contains(pblk) && s2.logged.contains(cblk));
            lemma_accounted_written(s2.image, sb, pnum as int, pd2);
            lemma_dots_written(s2.image, sb, up, pnum as int, pd2);
            let (s3, r3) = bwrite_spec(s2, pblk, dinode_block_with(s2.image, sb, pnum as int, pd2));
            assert(r3 is Ok);
            if r2 is Ok {
                let cd = dinode_at(s3.image, sb, c as int);
                lemma_rewrite_dots(s3, sb, up, c, linked_once_less(cd));
            }
        }
    }
}

/// Removing a name keeps the first entries of the directories. Take a
/// state of a volume whose blocks are accounted for and whose directories
/// have their first entries, and a path that does not end in `.` or `..`.
/// After the name that the path ends in was removed, or could not be
/// removed, all directories have their first entries.
pub proof fn lemma_unlink_dots(st: VolState, s: Seq<Inode>, sb: SuperBlock, up: Map<int, u32>, path: Seq<u8>)
    requires
        ready(st.image, sb),
        accounted(st.image, sb),
        all_dotted(st.image, sb, up),
        resolve_parent_spec(st.image, sb, path) matches Ok(hit) ==> !reserved_name(hit.1),
    ensures
        all_dotted(unlink_spec(st, s, sb, path).0.image, sb, up),
{
    match resolve_parent_spec(st.image, sb, path) {
        Err(e) => {},
        Ok((pnum, name)) => {
            lemma_walk_named(
                st.image,
                sb,
                ROOTINO,
                crate::path::names_of(path).drop_last(),
                0,
            );
            let pd = dinode_at(st.image, sb, pnum as int);
            if pd.ftype == 2 {
                lemma_dir_scan_named(st.image, sb, pd, name, 0);
                match dir_scan(st.image, sb, pd, name, 0) {
                    Ok(Some((c, _))) => {
                        let (t1, g1) = get_inode_spec(s, sb, c);
                        match g1 {
                            Err(e) => {},
                            Ok(ip) => {
                                lemma_unlink_entry_accounted(st, sb, pnum, name, c);
                                lemma_unlink_entry_dots(st, sb, up, pnum, name, c);
                                let (s1, r1) = unlink_entry_spec(st, sb, pnum, pd, name, c);
                                lemma_release_dots(s1, t1, sb, up, ip);
                            },
                        }
                    },
                    _ => {},
                }
            }
        },
    }
}

/// Making a directory keeps the first entries of the directories, and the
/// new directory has them.
pub proof fn lemma_mkdir_dots(st: VolState, s: Seq<Inode>, sb: SuperBlock, up: Map<int, u32>, path: Seq<u8>)
    requires
        ready(st.image, sb),
        accounted(st.image, sb),
        all_dotted(st.image, sb, up),
    ensures
        all_dotted(mkdir_spec(st, s, sb, path).0.image, sb, grown_up(up, st.image, sb, path)),
{
    lemma_create_accounted(st, s, sb, path, FileType::Dir);
    lemma_create_dots(st, s, sb, up, path, FileType::Dir);
    let (s1, t1, r1) = create_spec(st, s, sb, path, FileType::Dir);
    match r1 {
        Err(e) => {},
        Ok(ip) => {
            lemma_create_handle(st, s, sb, path, FileType::Dir);
            lemma_release_dots(s1, t1, sb, grown_up(up, st.image, sb, path), ip);
        },
    }
}

/// Finding or making the inode for an open keeps the first entries of the
/// directories.
pub proof fn lemma_open_inode_dots(
    st: VolState,
    s: Seq<Inode>,
    sb: SuperBlock,
    up: Map<int, u32>,
    path: Seq<u8>,
    omod: OpenMode,
)
    requires
        ready(st.image, sb),
        accounted(st.image, sb),
        all_dotted(st.image, sb, up),
        sb.ninodes >= 2,
    ensures
        all_dotted(
            open_inode_spec(st, s, sb, path, omod).0.image,
            sb,
            opened_up(up, st.image, sb, path, omod),
        ),
{
    if omod == OpenMode::OCreate {
        lemma_create_dots(st, s, sb, up, path, FileType::File);
    } else {
        let (s1, r1) = find_inode_spec(st, s, sb, path);
        match r1 {
            Err(e) => {},
            Ok(ip) => {
                if crate::dir::is_absolute(path) {
                    lemma_walk_named(st.image, sb, ROOTINO, crate::path::names_of(path), 0);
                }
                assert(1 <= ip.inum < sb.ninodes);
                let d = dinode_at(st.image, sb, ip.inum as int);
                if d.ftype == 0 {
                    lemma_release_dots(st, s1, sb, up, ip);
                } else if omod != OpenMode::ORdonly && d.ftype == 2 {
                    lemma_release_dots(st, s1, sb, up, ip);
                } else if omod == OpenMode::OTrunc {
                    lemma_drop_contents_accounted(st, sb, ip.inum);
                    lemma_drop_contents_dots(st, sb, up, ip.inum);
                    let (st2, r2) = drop_contents_spec(st, sb, ip.inum, d);
                    if r2 is Err {
                        lemma_release_dots(st2, s1, sb, up, ip);
                    }
                }
            },
        }
    }
}

/// The first entries of the directories lie outside the log: two images
/// that hold the same outside the log have them alike. So a commit, which
/// makes the device hold what a reader saw outside the log, keeps them.
pub proof fn lemma_dots_outside_log(img: Image, img2: Image, sb: SuperBlock, up: Map<int, u32>)
    requires
        ready(img, sb),
        all_dotted(img, sb, up),
        image_wf(img2),
        same_outside_log(img2, img, sb.logstart as int, sb.nlog as int),
    ensures
        all_dotted(img2, sb, up),
{
    assert forall|i: int| 1 <= i < sb.ninodes implies dotted(
        img2,
        sb,
        up,
        i,
        #[trigger] dinode_at(img2, sb, i),
    ) by {
        lemma_inode_block_range(sb, i);
        let di = dinode_at(img, sb, i);
        assert(img2[inode_block(sb, i)] == img[inode_block(sb, i)]);
        assert(dotted(img, sb, up, i, di));
        if di.ftype == 2 {
            lemma_dotted_block(img, sb, up, i, di);
            assert(img2[di.addrs[0] as int] == img[di.addrs[0] as int]);
            lemma_dotted_same(img, di, img2, di, sb, up, i);
        }
    }
}

/// In a new filesystem every directory has its first entries: the root
/// directory is the only one, and names itself by both.
pub proof fn lemma_fresh_dots(fs_size: u32)
    requires
        meta_blocks(fs_size as int) + 1 <= fs_size,
    ensures
        all_dotted(fresh_image(fs_size), fresh_superblock(fs_size), root_up()),
{
    let img = fresh_image(fs_size);
    let sb = fresh_superblock(fs_size);
    lemma_fresh_accounted(fs_size);
    lemma_fresh_root(fs_size);
    assert forall|i: int| 1 <= i < sb.ninodes implies dotted(
        img,
        sb,
        root_up(),
        i,
        #[trigger] dinode_at(img, sb, i),
    ) by {
        if i == 1 {
            assert(dinode_at(img, sb, 1).size == 64);
        }
    }
}

/// A name without a zero byte that is neither `.` nor `..` does not stand
/// for one of them in an entry.
pub proof fn lemma_plain_not_reserved(name: Seq<u8>)
    requires
        name.len() > 0,
        !name.contains(0u8),
        !is_dot(name),
        !is_dotdot(name),
    ensures
        !reserved_name(name),
{
    let dot = padded(dot_name(), 28);
    let dotdot = padded(dotdot_name(), 28);
    if name.len() <= 28 {
        let field = padded(name, 28);
        assert(field[0] == name[0]);
        assert(name.contains(name[0]));
        if name.len() >= 2 {
            assert(field[1] == name[1]);
            assert(name.contains(name[1]));
            assert(dot[1] == 0u8);
        } else {
            assert(field[1] == 0u8);
            assert(dotdot[1] == DOT);
            assert(dot[0] == DOT);
        }
        if name.len() >= 3 {
            assert(field[2] == name[2]);
            assert(name.contains(name[2]));
            assert(dotdot[2] == 0u8);
        } else if name.len() == 2 {
            assert(dotdot[0] == DOT && dotdot[1] == DOT);
        }
    }
}

/// Removing the name that a canonical path ends in keeps the first
/// entries of the directories. Take a state of a volume whose blocks are
/// accounted for and whose directories have their first entries, and a
/// path without a zero byte. After the name that the canonical path for
/// it ends in was removed, or could not be removed, all directories have
/// their first entries.
pub proof fn lemma_unlink_canonical_dots(
    st: VolState,
    s: Seq<Inode>,
    sb: SuperBlock,
    up: Map<int, u32>,
    path: Seq<u8>,
)
    requires
        ready(st.image, sb),
        accounted(st.image, sb),
        all_dotted(st.image, sb, up),
        !path.contains(0u8),
    ensures
        all_dotted(unlink_spec(st, s, sb, canonical(path)).0.image, sb, up),
{
    let all = names_of(path);
    let kept = normalize(all, all.len() as int);
    lemma_canonical(path);
    lemma_names_plain(path);
    lemma_normalize_plain(all, all.len() as int);
    if kept.len() > 0 {
        let name = kept.last();
        assert(all.contains(name));
        let i = choose|i: int| 0 <= i < all.len() && all[i] == name;
        assert(name.len() > 0);
        if name.contains(0u8) {
            let q = choose|q: int| 0 <= q < name.len() && name[q] == 0u8;
            assert(path.contains(all[i][q]));
        }
        lemma_plain_not_reserved(name);
    }
    lemma_unlink_dots(st, s, sb, up, canonical(path));
}

} // verus!
