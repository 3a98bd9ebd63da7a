//! Directories: a directory's contents are directory entries, one after
//! another. Looking a name up reads the entries and changes nothing;
//! entering and removing a name write one entry.

use vstd::prelude::*;
use crate::bitmap::{balloc_spec, is_data_block, zero_block};
use crate::codec::{le32, lemma_le32_same, put_bytes, read_u32, Record};
use crate::fs::{image_wf, BlockDevice, FileType, FsError, Image, MAXFILE, NDIRECT, ROOTINO};
use crate::inode::{
    block_map_spec, data_block, dinode_at, iwrite, iwrite_spec, max_bytes, name_eq, name_is,
    name_set, padded, read_dinode, span, write_steps, DirEntry, DirEntryView, DiskInode,
    DiskInodeView,
};
use crate::path::{names_of, names_view, SEP};
use crate::superblock::SuperBlock;
use crate::volume::{bwrite_spec, VolState, Volume};

verus! {

/// The block that the inode names for logical block `bn`, or 0 if it names
/// none; an error if what it names is no block of the data area.
pub open spec fn mapped_spec(img: Image, sb: SuperBlock, d: DiskInodeView, bn: int) -> Result<
    u32,
    FsError,
> {
    if bn >= MAXFILE {
        Ok(0u32)
    } else if bn < NDIRECT {
        let a = d.addrs[bn];
        if a == 0 || is_data_block(sb, a as int) {
            Ok(a)
        } else {
            Err(FsError::Corrupt)
        }
    } else {
        let ind = d.addrs[NDIRECT as int];
        if ind == 0 {
            Ok(0u32)
        } else if !is_data_block(sb, ind as int) {
            Err(FsError::Corrupt)
        } else {
            let a = le32(img[ind as int], 4 * (bn - NDIRECT));
            if a == 0 || is_data_block(sb, a as int) {
                Ok(a)
            } else {
                Err(FsError::Corrupt)
            }
        }
    }
}

/// The block that the inode names for logical block `bn`; see
/// `mapped_spec`.
pub fn block_lookup<D: BlockDevice>(vol: &mut Volume<D>, d: &DiskInode, bn: u32) -> (r: Result<
    u32,
    FsError,
>)
    requires
        old(vol).inv(),
    ensures
        final(vol).inv(),
        final(vol).stays(old(vol)),
        final(vol).state() == old(vol).state(),
        r == mapped_spec(old(vol).image(), old(vol).sb, d@, bn as int),
{
    proof {
        vol.lemma_stays_refl();
    }
    if bn >= MAXFILE {
        return Ok(0);
    }
    if bn < NDIRECT {
        let a = d.addrs[bn as usize];
        return if a == 0 || data_block(&vol.sb, a) {
            Ok(a)
        } else {
            Err(FsError::Corrupt)
        };
    }
    let ind = d.addrs[NDIRECT as usize];
    if ind == 0 {
        return Ok(0);
    }
    if !data_block(&vol.sb, ind) {
        return Err(FsError::Corrupt);
    }
    let blk = vol.bread(ind);
    let a = read_u32(&blk, (4 * (bn - NDIRECT)) as usize);
    if a == 0 || data_block(&vol.sb, a) {
        Ok(a)
    } else {
        Err(FsError::Corrupt)
    }
}

/// The entry without a name and an inode.
pub open spec fn empty_entry() -> DirEntryView {
    DirEntryView { inum: 0, name: Seq::new(28, |i: int| 0u8) }
}

/// The directory entry at offset `off` of the directory's contents. Where
/// the directory has no block, the entry is empty.
pub open spec fn entry_at(img: Image, sb: SuperBlock, d: DiskInodeView, off: int) -> Result<
    DirEntryView,
    FsError,
> {
    match mapped_spec(img, sb, d, off / 512) {
        Err(e) => Err(e),
        Ok(p) => if p == 0 {
            Ok(empty_entry())
        } else {
            Ok(DirEntry::decode(img[p as int], off % 512))
        },
    }
}

/// The number of entries of a directory.
pub open spec fn entry_count(d: DiskInodeView) -> int {
    if d.size < max_bytes() {
        (d.size as int) / 32
    } else {
        max_bytes() / 32
    }
}

/// The directory entry at offset `off`; see `entry_at`.
pub fn read_entry<D: BlockDevice>(vol: &mut Volume<D>, d: &DiskInode, off: u32) -> (r: Result<
    DirEntry,
    FsError,
>)
    requires
        old(vol).inv(),
        off % 32 == 0,
    ensures
        final(vol).inv(),
        final(vol).stays(old(vol)),
        final(vol).state() == old(vol).state(),
        r matches Ok(e) ==> entry_at(old(vol).image(), old(vol).sb, d@, off as int) == Ok::<
            DirEntryView,
            FsError,
        >(e@),
        r matches Err(e) ==> entry_at(old(vol).image(), old(vol).sb, d@, off as int) == Err::<
            DirEntryView,
            FsError,
        >(e),
{
    let ghost v0 = *vol;
    match block_lookup(vol, d, off / 512) {
        Err(e) => Err(e),
        Ok(p) => {
            if p == 0 {
                let e = DirEntry::default();
                Ok(e)
            } else {
                let ghost v1 = *vol;
                let blk = vol.bread(p);
                proof {
                    vol.lemma_stays_trans(&v1, &v0);
                }
                Ok(DirEntry::load(&blk, (off % 512) as usize))
            }
        },
    }
}

/// The inode and the offset of the first entry, from entry `i` on, that is
/// in use and has the name; `None` if there is none; an error if an entry
/// before it cannot be read.
pub open spec fn dir_scan(img: Image, sb: SuperBlock, d: DiskInodeView, name: Seq<u8>, i: int) -> Result<
    Option<(u32, u32)>,
    FsError,
>
    decreases entry_count(d) - i,
{
    if i < 0 || i >= entry_count(d) {
        Ok(None)
    } else {
        match entry_at(img, sb, d, i * 32) {
            Err(e) => Err(e),
            Ok(e) => if e.inum != 0 && name_is(e.name, name) {
                Ok(Some((e.inum, (i * 32) as u32)))
            } else {
                dir_scan(img, sb, d, name, i + 1)
            },
        }
    }
}

/// The offset of the first entry, from entry `i` on, that is not in use,
/// or the offset behind the last entry; an error if an entry before it
/// cannot be read.
pub open spec fn dir_slot(img: Image, sb: SuperBlock, d: DiskInodeView, i: int) -> Result<
    u32,
    FsError,
>
    decreases entry_count(d) - i,
{
    if i < 0 || i >= entry_count(d) {
        Ok((entry_count(d) * 32) as u32)
    } else {
        match entry_at(img, sb, d, i * 32) {
            Err(e) => Err(e),
            Ok(e) => if e.inum == 0 {
                Ok((i * 32) as u32)
            } else {
                dir_slot(img, sb, d, i + 1)
            },
        }
    }
}

/// The number of entries of a directory.
pub fn count_entries(d: &DiskInode) -> (n: u32)
    ensures
        n == entry_count(d@),
        n * 32 <= max_bytes(),
{
    let lim: u32 = MAXFILE * 512;
    if d.size < lim {
        d.size / 32
    } else {
        lim / 32
    }
}

/// Looks the name up in the directory; see `dir_scan`.
pub fn dir_lookup<D: BlockDevice>(vol: &mut Volume<D>, d: &DiskInode, name: &[u8]) -> (r: Result<
    Option<(u32, u32)>,
    FsError,
>)
    requires
        old(vol).inv(),
    ensures
        final(vol).inv(),
        final(vol).stays(old(vol)),
        final(vol).state() == old(vol).state(),
        r == dir_scan(old(vol).image(), old(vol).sb, d@, name@, 0),
{
    let n = count_entries(d);
    let ghost img = vol.image();
    let ghost sb = vol.sb;
    let mut i: u32 = 0;
    proof {
        vol.lemma_stays_refl();
    }
    while i < n
        invariant
            i <= n,
            n == entry_count(d@),
            n * 32 <= max_bytes(),
            img == old(vol).image(),
            sb == old(vol).sb,
            vol.inv(),
            vol.stays(old(vol)),
            vol.state() == old(vol).state(),
            dir_scan(img, sb, d@, name@, 0) == dir_scan(img, sb, d@, name@, i as int),
        decreases n - i,
    {
        let ghost v1 = *vol;
        let got = read_entry(vol, d, i * 32);
        proof {
            vol.lemma_stays_trans(&v1, old(vol));
        }
        match got {
            Err(e) => {
                return Err(e);
            },
            Ok(e) => {
                if e.inum != 0 && name_eq(&e.name, name) {
                    return Ok(Some((e.inum, i * 32)));
                }
            },
        }
        i = i + 1;
    }
    Ok(None)
}

/// The offset at which the directory can take an entry; see `dir_slot`.
pub fn dir_free_slot<D: BlockDevice>(vol: &mut Volume<D>, d: &DiskInode) -> (r: Result<u32, FsError>)
    requires
        old(vol).inv(),
    ensures
        final(vol).inv(),
        final(vol).stays(old(vol)),
        final(vol).state() == old(vol).state(),
        r == dir_slot(old(vol).image(), old(vol).sb, d@, 0),
        r matches Ok(off) ==> off % 32 == 0 && off <= max_bytes(),
{
    let n = count_entries(d);
    let ghost img = vol.image();
    let ghost sb = vol.sb;
    let mut i: u32 = 0;
    proof {
        vol.lemma_stays_refl();
    }
    while i < n
        invariant
            i <= n,
            n == entry_count(d@),
            n * 32 <= max_bytes(),
            img == old(vol).image(),
            sb == old(vol).sb,
            vol.inv(),
            vol.stays(old(vol)),
            vol.state() == old(vol).state(),
            dir_slot(img, sb, d@, 0) == dir_slot(img, sb, d@, i as int),
        decreases n - i,
    {
        let ghost v1 = *vol;
        let got = read_entry(vol, d, i * 32);
        proof {
            vol.lemma_stays_trans(&v1, old(vol));
        }
        match got {
            Err(e) => {
                return Err(e);
            },
            Ok(e) => {
                if e.inum == 0 {
                    return Ok(i * 32);
                }
            },
        }
        i = i + 1;
    }
    Ok(n * 32)
}

/// The bytes of the entry that gives inode `inum` the name `name`.
pub open spec fn entry_bytes(inum: u32, name: Seq<u8>) -> Seq<u8> {
    DirEntry::encode(
        DirEntryView { inum, name: padded(name, 28) },
        Seq::new(32, |i: int| 0u8),
        0,
    )
}

/// The result of writing one entry: success if all its 32 bytes were
/// written, the error that stopped the writing, or that the directory
/// cannot grow.
pub open spec fn entry_written(r: Result<usize, FsError>) -> Result<(), FsError> {
    match r {
        Ok(k) => if k == 32 {
            Ok(())
        } else {
            Err(FsError::NoBlocks)
        },
        Err(e) => Err(e),
    }
}

/// What entering the name `name` for inode `inum` in a directory does: the
/// entry goes to the first place that is not in use, or behind the last
/// entry. Nothing changes if the name is longer than an entry's name, if
/// the directory has the name already, or if an entry cannot be read.
pub open spec fn dir_link_spec(
    st: VolState,
    sb: SuperBlock,
    d: DiskInodeView,
    name: Seq<u8>,
    inum: u32,
) -> (VolState, DiskInodeView, Result<(), FsError>) {
    if name.len() > 28 {
        (st, d, Err(FsError::NameTooLong))
    } else {
        match dir_scan(st.image, sb, d, name, 0) {
            Err(e) => (st, d, Err(e)),
            Ok(Some(_)) => (st, d, Err(FsError::AlreadyExists)),
            Ok(None) => match dir_slot(st.image, sb, d, 0) {
                Err(e) => (st, d, Err(e)),
                Ok(off) => {
                    let (s1, d1, r1) = iwrite_spec(
                        st,
                        sb,
                        d,
                        entry_bytes(inum, name),
                        off as int,
                        32,
                    );
                    (s1, d1, entry_written(r1))
                },
            },
        }
    }
}

/// What removing the name `name` from a directory does: the entry becomes
/// empty, and the inode that it named is returned. Nothing changes if the
/// directory has no entry of that name, or if an entry cannot be read.
pub open spec fn dir_unlink_spec(st: VolState, sb: SuperBlock, d: DiskInodeView, name: Seq<u8>) -> (
    VolState,
    DiskInodeView,
    Result<u32, FsError>,
) {
    match dir_scan(st.image, sb, d, name, 0) {
        Err(e) => (st, d, Err(e)),
        Ok(None) => (st, d, Err(FsError::NotFound)),
        Ok(Some((inum, off))) => {
            let (s1, d1, r1) = iwrite_spec(st, sb, d, entry_bytes(0, Seq::empty()), off as int, 32);
            match entry_written(r1) {
                Ok(_) => (s1, d1, Ok(inum)),
                Err(e) => (s1, d1, Err(e)),
            }
        },
    }
}

/// The bytes of a directory entry.
fn entry_to_bytes(e: &DirEntry) -> (out: [u8; 32])
    ensures
        out@ == DirEntry::encode(e@, Seq::new(32, |i: int| 0u8), 0),
{
    let mut out = [0u8; 32];
    assert(out@ =~= Seq::new(32, |i: int| 0u8));
    e.store(&mut out, 0);
    out
}

/// Enters the name `name` for inode `inum` in the directory with inode
/// `d`; see `dir_link_spec`. The caller has to write `d` back.
pub fn dir_link<D: BlockDevice>(vol: &mut Volume<D>, d: &mut DiskInode, name: &[u8], inum: u32) -> (r:
    Result<(), FsError>)
    requires
        old(vol).inv(),
        old(vol).in_txn(),
    ensures
        final(vol).inv(),
        final(vol).stays(old(vol)),
        (final(vol).state(), final(d)@, r) == dir_link_spec(
            old(vol).state(),
            old(vol).sb,
            old(d)@,
            name@,
            inum,
        ),
{
    proof {
        vol.lemma_stays_refl();
    }
    let mut e = DirEntry::default();
    e.inum = inum;
    match name_set(&mut e.name, name) {
        Err(err) => {
            return Err(err);
        },
        Ok(()) => {},
    }
    let ghost v0 = *vol;
    match dir_lookup(vol, d, name) {
        Err(err) => {
            return Err(err);
        },
        Ok(Some(_)) => {
            return Err(FsError::AlreadyExists);
        },
        Ok(None) => {},
    }
    let ghost v1 = *vol;
    let off = match dir_free_slot(vol, d) {
        Err(err) => {
            proof {
                vol.lemma_stays_trans(&v1, old(vol));
            }
            return Err(err);
        },
        Ok(off) => off,
    };
    let ghost v2 = *vol;
    let bytes = entry_to_bytes(&e);
    let r = iwrite(vol, d, &bytes, off as usize, 32);
    proof {
        vol.lemma_stays_trans(&v2, &v1);
        vol.lemma_stays_trans(&v1, old(vol));
    }
    match r {
        Ok(k) => if k == 32 {
            Ok(())
        } else {
            Err(FsError::NoBlocks)
        },
        Err(err) => Err(err),
    }
}

/// Removes the name `name` from the directory with inode `d`; see
/// `dir_unlink_spec`. The caller has to write `d` back.
pub fn dir_unlink<D: BlockDevice>(vol: &mut Volume<D>, d: &mut DiskInode, name: &[u8]) -> (r: Result<
    u32,
    FsError,
>)
    requires
        old(vol).inv(),
        old(vol).in_txn(),
    ensures
        final(vol).inv(),
        final(vol).stays(old(vol)),
        (final(vol).state(), final(d)@, r) == dir_unlink_spec(
            old(vol).state(),
            old(vol).sb,
            old(d)@,
            name@,
        ),
{
    proof {
        vol.lemma_stays_refl();
    }
    let found = match dir_lookup(vol, d, name) {
        Err(err) => {
            return Err(err);
        },
        Ok(None) => {
            return Err(FsError::NotFound);
        },
        Ok(Some(found)) => found,
    };
    let ghost v1 = *vol;
    let e = DirEntry::default();
    proof {
        assert(e@.name =~= padded(Seq::<u8>::empty(), 28));
    }
    let bytes = entry_to_bytes(&e);
    let r = iwrite(vol, d, &bytes, found.1 as usize, 32);
    proof {
        vol.lemma_stays_trans(&v1, old(vol));
    }
    match r {
        Ok(k) => if k == 32 {
            Ok(found.0)
        } else {
            Err(FsError::NoBlocks)
        },
        Err(err) => Err(err),
    }
}

/// The inode that the names from the `k`-th on lead to, starting at the
/// directory `cur`: each name is looked up in the inode that the names
/// before it led to, which has to be a directory.
pub open spec fn walk(img: Image, sb: SuperBlock, cur: u32, names: Seq<Seq<u8>>, k: int) -> Result<
    u32,
    FsError,
>
    decreases names.len() - k,
{
    if k < 0 || k >= names.len() {
        Ok(cur)
    } else {
        let d = dinode_at(img, sb, cur as int);
        if d.ftype != 2 {
            Err(FsError::NotADirectory)
        } else {
            match dir_scan(img, sb, d, names[k], 0) {
                Err(e) => Err(e),
                Ok(None) => Err(FsError::NotFound),
                Ok(Some((inum, _))) => if inum >= sb.ninodes {
                    Err(FsError::Corrupt)
                } else {
                    walk(img, sb, inum, names, k + 1)
                },
            }
        }
    }
}

/// The path begins with `/`.
pub open spec fn is_absolute(path: Seq<u8>) -> bool {
    path.len() > 0 && path[0] == SEP
}

/// The inode that the path names. The path has to be absolute; its names
/// are looked up one after another, starting at the root directory.
pub open spec fn resolve_spec(img: Image, sb: SuperBlock, path: Seq<u8>) -> Result<u32, FsError> {
    if !is_absolute(path) {
        Err(FsError::NotFound)
    } else {
        walk(img, sb, ROOTINO, names_of(path), 0)
    }
}

/// The directory that holds what the path names, and the last name of the
/// path. The root directory has no name, so its path has no parent.
pub open spec fn resolve_parent_spec(img: Image, sb: SuperBlock, path: Seq<u8>) -> Result<
    (u32, Seq<u8>),
    FsError,
> {
    let names = names_of(path);
    if !is_absolute(path) || names.len() == 0 {
        Err(FsError::NotFound)
    } else {
        match walk(img, sb, ROOTINO, names.drop_last(), 0) {
            Err(e) => Err(e),
            Ok(p) => Ok((p, names.last())),
        }
    }
}

/// Follows the first `upto` of the names from the root directory; see
/// `walk`.
pub fn walk_names<D: BlockDevice>(vol: &mut Volume<D>, names: &Vec<Vec<u8>>, upto: usize) -> (r:
    Result<u32, FsError>)
    requires
        old(vol).inv(),
        upto <= names@.len(),
    ensures
        final(vol).inv(),
        final(vol).stays(old(vol)),
        final(vol).state() == old(vol).state(),
        r == walk(
            old(vol).image(),
            old(vol).sb,
            ROOTINO,
            names_view(names@).take(upto as int),
            0,
        ),
        r matches Ok(inum) ==> inum < old(vol).sb.ninodes,
{
    let ghost img = vol.image();
    let ghost sb = vol.sb;
    let ghost all = names_view(names@).take(upto as int);
    let mut cur: u32 = ROOTINO;
    let mut k: usize = 0;
    proof {
        vol.lemma_stays_refl();
    }
    while k < upto
        invariant
            k <= upto,
            upto <= names@.len(),
            all == names_view(names@).take(upto as int),
            img == old(vol).image(),
            sb == old(vol).sb,
            vol.inv(),
            vol.stays(old(vol)),
            vol.state() == old(vol).state(),
            cur < sb.ninodes,
            walk(img, sb, ROOTINO, all, 0) == walk(img, sb, cur, all, k as int),
        decreases upto - k,
    {
        let ghost v1 = *vol;
        let d = read_dinode(vol, cur);
        if d.ftype != 2 {
            proof {
                vol.lemma_stays_trans(&v1, old(vol));
            }
            return Err(FsError::NotADirectory);
        }
        let ghost v2 = *vol;
        let found = dir_lookup(vol, &d, names[k].as_slice());
        proof {
            vol.lemma_stays_trans(&v2, &v1);
            vol.lemma_stays_trans(&v1, old(vol));
            assert(all[k as int] == names@[k as int]@);
        }
        match found {
            Err(e) => {
                return Err(e);
            },
            Ok(None) => {
                return Err(FsError::NotFound);
            },
            Ok(Some(hit)) => {
                if hit.0 >= vol.sb.ninodes {
                    return Err(FsError::Corrupt);
                }
                cur = hit.0;
            },
        }
        k = k + 1;
    }
    Ok(cur)
}

/// What writing one entry at offset `off` of the first block of a
/// directory does when it succeeds: the directory has a first block, which
/// it had before or has got just now, filled with zeros; the block holds
/// the entry at `off` and else what it held; the size covers the entry.
pub proof fn lemma_entry_write(
    st: VolState,
    sb: SuperBlock,
    d: DiskInodeView,
    bytes: Seq<u8>,
    off: int,
)
    requires
        sb.size <= st.image.len(),
        d.addrs.len() == 13,
        bytes.len() == 32,
        0 <= off <= 480,
        off % 32 == 0,
        iwrite_spec(st, sb, d, bytes, off, 32).2 == Ok::<usize, FsError>(32),
    ensures
        ({
            let (s1, d1, r1) = iwrite_spec(st, sb, d, bytes, off, 32);
            let b = d1.addrs[0];
            &&& is_data_block(sb, b as int)
            &&& s1.image.len() == st.image.len()
            &&& d1.ftype == d.ftype
            &&& d1.nlink == d.nlink
            &&& d1.addrs == d.addrs.update(0, b)
            &&& d1.size == (if off + 32 > d.size {
                (off + 32) as u32
            } else {
                d.size
            })
            &&& d.addrs[0] != 0 ==> b == d.addrs[0] && s1.image[b as int] == put_bytes(
                st.image[b as int],
                off,
                bytes,
            )
            &&& d.addrs[0] == 0 ==> s1.image[b as int] == put_bytes(zero_block(), off, bytes)
        }),
{
    reveal(block_map_spec);
    reveal(balloc_spec);
    let (m1, e1, q1) = block_map_spec(st, sb, d, 0u32);
    assert(write_steps(st, sb, d, bytes, off, 32, 0) == ({
        match q1 {
            Err(e) => (m1, e1, 0int, Some(e)),
            Ok(p) => {
                let blk = put_bytes(m1.image[p as int], off % 512, bytes.subrange(0, 32));
                let (m2, q2) = bwrite_spec(m1, p, blk);
                match q2 {
                    Err(e) => (m2, e1, 0int, Some(e)),
                    Ok(_) => write_steps(m2, sb, e1, bytes, off, 32, 32),
                }
            },
        }
    })) by {
        assert(span(off, 32) == 32);
        assert((off + 0) / 512 == 0);
    }
    assert(bytes.subrange(0, 32) =~= bytes);
    assert(max_bytes() == 71680);
    let steps = write_steps(st, sb, d, bytes, off, 32, 0);
    assert(iwrite_spec(st, sb, d, bytes, off, 32).2 == crate::inode::transfer_result(
        steps.2,
        steps.3,
    ));
    match q1 {
        Err(e) => {
            assert(steps.2 == 0 && steps.3 == Some(e));
        },
        Ok(p) => {
            let blk = put_bytes(m1.image[p as int], off, bytes);
            let (m2, q2) = bwrite_spec(m1, p, blk);
            match q2 {
                Err(e) => {
                    assert(steps.2 == 0 && steps.3 == Some(e));
                },
                Ok(_) => {
                    assert(write_steps(m2, sb, e1, bytes, off, 32, 32) == (m2, e1, 32int, None::<FsError>));
                    if d.addrs[0] == 0 {
                        assert(e1.addrs =~= d.addrs.update(0, p));
                    } else {
                        assert(e1.addrs =~= d.addrs.update(0, p));
                    }
                },
            }
        },
    }
}

/// A new directory has its two entries. Take a new directory with inode
/// number `inum`, which is not 0, under the directory `parent`. If giving
/// it its first entries succeeds, then it is a directory of size 64 whose
/// entry at offset 0 is `.` for itself and whose entry at offset 32 is
/// `..` for its parent.
pub proof fn lemma_first_entries(st: VolState, sb: SuperBlock, inum: u32, parent: u32)
    requires
        sb.layout_ok(),
        sb.size <= st.image.len(),
        image_wf(st.image),
        inum != 0,
        crate::inode::first_entries_spec(st, sb, FileType::Dir, inum, parent).2 is Ok,
    ensures
        ({
            let (s2, d2, r2) = crate::inode::first_entries_spec(
                st,
                sb,
                FileType::Dir,
                inum,
                parent,
            );
            &&& d2.ftype == 2
            &&& d2.nlink == 1
            &&& d2.size == 64
            &&& entry_at(s2.image, sb, d2, 0) == Ok::<DirEntryView, FsError>(
                DirEntryView { inum, name: padded(crate::inode::dot_name(), 28) },
            )
            &&& entry_at(s2.image, sb, d2, 32) == Ok::<DirEntryView, FsError>(
                DirEntryView { inum: parent, name: padded(crate::inode::dotdot_name(), 28) },
            )
        }),
{
    let dot = crate::inode::dot_name();
    let dotdot = crate::inode::dotdot_name();
    let d0 = crate::inode::fresh_dinode(FileType::Dir);
    let e_dot = DirEntryView { inum, name: padded(dot, 28) };
    let e_dotdot = DirEntryView { inum: parent, name: padded(dotdot, 28) };
    let z32 = Seq::new(32, |i: int| 0u8);
    DirEntry::lemma_codec(e_dot, z32, 0);
    DirEntry::lemma_codec(e_dotdot, z32, 0);
    let b_dot = entry_bytes(inum, dot);
    let b_dotdot = entry_bytes(parent, dotdot);
    // the first entry
    assert(dir_scan(st.image, sb, d0, dot, 0) == Ok::<Option<(u32, u32)>, FsError>(None));
    assert(dir_slot(st.image, sb, d0, 0) == Ok::<u32, FsError>(0u32));
    let (s1, d1, r1) = dir_link_spec(st, sb, d0, dot, inum);
    assert(r1 is Ok);
    let w1 = iwrite_spec(st, sb, d0, b_dot, 0, 32);
    assert(w1.2 == Ok::<usize, FsError>(32));
    lemma_entry_write(st, sb, d0, b_dot, 0);
    let b = d1.addrs[0];
    let blk1 = s1.image[b as int];
    assert(blk1 == put_bytes(zero_block(), 0, b_dot));
    assert(mapped_spec(s1.image, sb, d1, 0) == Ok::<u32, FsError>(b));
    assert(DirEntry::decode(blk1, 0) == e_dot) by {
        lemma_le32_same(blk1, b_dot, 0);
        assert(blk1.subrange(4, 32) =~= b_dot.subrange(4, 32));
    }
    assert(DirEntry::decode(blk1, 32) == empty_entry()) by {
        assert(blk1.subrange(36, 64) =~= empty_entry().name);
        lemma_le32_same(blk1, zero_block(), 32);
    }
    // the second entry
    assert(entry_count(d1) == 1);
    assert(entry_at(s1.image, sb, d1, 0) == Ok::<DirEntryView, FsError>(e_dot));
    assert(!name_is(e_dot.name, dotdot)) by {
        assert(padded(dot, 28)[1] == 0u8);
        assert(padded(dotdot, 28)[1] == crate::path::DOT);
    }
    assert(dir_scan(s1.image, sb, d1, dotdot, 0) == Ok::<Option<(u32, u32)>, FsError>(None)) by {
        assert(dir_scan(s1.image, sb, d1, dotdot, 1) == Ok::<Option<(u32, u32)>, FsError>(None));
    }
    assert(dir_slot(s1.image, sb, d1, 0) == Ok::<u32, FsError>(32u32)) by {
        assert(dir_slot(s1.image, sb, d1, 1) == Ok::<u32, FsError>(32u32));
    }
    let (s2, d2, r2) = dir_link_spec(s1, sb, d1, dotdot, parent);
    assert(r2 is Ok);
    let w2 = iwrite_spec(s1, sb, d1, b_dotdot, 32, 32);
    assert(w2.2 == Ok::<usize, FsError>(32));
    lemma_entry_write(s1, sb, d1, b_dotdot, 32);
    let blk2 = s2.image[b as int];
    assert(blk2 == put_bytes(blk1, 32, b_dotdot));
    assert(mapped_spec(s2.image, sb, d2, 0) == Ok::<u32, FsError>(b));
    assert(DirEntry::decode(blk2, 0) == e_dot) by {
        lemma_le32_same(blk2, blk1, 0);
        assert(blk2.subrange(4, 32) =~= blk1.subrange(4, 32));
    }
    assert(DirEntry::decode(blk2, 32) == e_dotdot) by {
        assert forall|i: int| 32 <= i < 36 implies blk2[i] == b_dotdot[i - 32] by {}
        assert(crate::codec::le32(blk2, 32) == crate::codec::le32(b_dotdot, 0));
        assert(blk2.subrange(36, 64) =~= b_dotdot.subrange(4, 32));
    }
}

} // verus!
