//! Inodes: the on-disk records, the block map with direct and singly
//! indirect blocks, reading and writing of file contents, directories and
//! paths, and the table of inodes that are in use in memory.

use vstd::prelude::*;
use vstd::string::StringSliceAdditionalSpecFns;
use vstd::utf8::encode_utf8;
use crate::bitmap::{
    balloc, balloc_spec, bitmap_block, block_free, block_free_spec, is_data_block, is_used,
    lemma_bitmap_block_range, lemma_mark_free, mark_free,
};
use crate::codec::{
    copy_bytes, le16, le32, le32_seq, lemma_le16_put16, lemma_le32_put32, lemma_le32_same,
    lemma_le32_seq_put32_seq, lemma_put32_seq_frame, load_bytes, load_words, put16, put32,
    put32_seq, put_bytes, read_u16, read_u32, store_bytes, store_words, write_u16, write_u32,
    Record,
};
use crate::dir::{
    block_lookup, dir_link, dir_link_spec, dir_lookup, dir_scan, dir_unlink, dir_unlink_spec,
    mapped_spec, resolve_parent_spec, resolve_spec, walk_names,
};
use crate::filesystem::Filesystem;
use crate::fs::{
    image_wf, BLOCK_SIZE, BlockDevice, DINODE_SIZE, FileType, FsError, Image, IPB, MAXFILE,
    NDIRECT, NINDIRECT, NINODES, ROOTINO,
};
use crate::path::{components, names_of, names_view, DOT, SEP};
use crate::superblock::SuperBlock;
use crate::volume::{bwrite_spec, reserve_spec, VolState, Volume};

verus! {

/// An inode as it stands on disk: 64 bytes.
#[derive(Debug, Clone, Copy)]
pub struct DiskInode {
    /// Device number, always 0.
    pub dev: u32,
    /// File type: 0 free, 1 file, 2 directory.
    pub ftype: u16,
    /// Number of directory entries that name the inode.
    pub nlink: u16,
    /// Size of the contents, in bytes.
    pub size: u32,
    /// The direct blocks and, last, the indirect block; 0 where none.
    pub addrs: [u32; 13],
}

/// An on-disk inode as a value of mathematics.
pub struct DiskInodeView {
    pub dev: u32,
    pub ftype: u16,
    pub nlink: u16,
    pub size: u32,
    pub addrs: Seq<u32>,
}

impl View for DiskInode {
    type V = DiskInodeView;

    open spec fn view(&self) -> DiskInodeView {
        DiskInodeView {
            dev: self.dev,
            ftype: self.ftype,
            nlink: self.nlink,
            size: self.size,
            addrs: self.addrs@,
        }
    }
}

impl Default for DiskInode {
    fn default() -> (d: DiskInode)
        ensures
            d@ == zero_dinode(),
    {
        let d = DiskInode { dev: 0, ftype: 0, nlink: 0, size: 0, addrs: [0u32; 13] };
        assert(d.addrs@ =~= Seq::new(13, |i: int| 0u32));
        d
    }
}

/// The inode of which every field is zero.
pub open spec fn zero_dinode() -> DiskInodeView {
    DiskInodeView { dev: 0, ftype: 0, nlink: 0, size: 0, addrs: Seq::new(13, |i: int| 0u32) }
}

impl Record for DiskInode {
    open spec fn size() -> nat {
        64
    }

    open spec fn decode(s: Seq<u8>, off: int) -> DiskInodeView {
        DiskInodeView {
            dev: le32(s, off),
            ftype: le16(s, off + 4),
            nlink: le16(s, off + 6),
            size: le32(s, off + 8),
            addrs: le32_seq(s, off + 12, 13),
        }
    }

    open spec fn encode(v: DiskInodeView, s: Seq<u8>, off: int) -> Seq<u8> {
        put32_seq(
            put32(put16(put16(put32(s, off, v.dev), off + 4, v.ftype), off + 6, v.nlink), off + 8, v.size),
            off + 12,
            v.addrs,
        )
    }

    open spec fn valid(v: DiskInodeView) -> bool {
        v.addrs.len() == 13
    }

    proof fn lemma_codec(v: DiskInodeView, s: Seq<u8>, off: int) {
        let s1 = put32(s, off, v.dev);
        let s2 = put16(s1, off + 4, v.ftype);
        let s3 = put16(s2, off + 6, v.nlink);
        let s4 = put32(s3, off + 8, v.size);
        let s5 = put32_seq(s4, off + 12, v.addrs);
        lemma_le32_put32(s, off, v.dev);
        lemma_le16_put16(s1, off + 4, v.ftype);
        lemma_le16_put16(s2, off + 6, v.nlink);
        lemma_le32_put32(s3, off + 8, v.size);
        lemma_put32_seq_frame(s4, off + 12, v.addrs);
        lemma_le32_seq_put32_seq(s4, off + 12, v.addrs);
        assert(le32(s5, off) == v.dev) by {
            lemma_le32_same(s5, s1, off);
        }
        assert(le16(s5, off + 4) == v.ftype);
        assert(le16(s5, off + 6) == v.nlink);
        assert(le32(s5, off + 8) == v.size) by {
            lemma_le32_same(s5, s4, off + 8);
        }
        assert(Self::decode(s5, off).addrs == v.addrs);
    }

    fn byte_len() -> (n: usize) {
        64
    }

    fn load(buf: &[u8], off: usize) -> (r: DiskInode) {
        let total = buf.len();
        assert(off + 64 <= total);
        let mut addrs = [0u32; 13];
        load_words(buf, off + 12, &mut addrs);
        DiskInode {
            dev: read_u32(buf, off),
            ftype: read_u16(buf, off + 4),
            nlink: read_u16(buf, off + 6),
            size: read_u32(buf, off + 8),
            addrs,
        }
    }

    fn store(&self, buf: &mut [u8], off: usize) {
        let total = buf.len();
        assert(off + 64 <= total);
        write_u32(buf, off, self.dev);
        write_u16(buf, off + 4, self.ftype);
        write_u16(buf, off + 6, self.nlink);
        write_u32(buf, off + 8, self.size);
        store_words(&self.addrs, buf, off + 12);
    }
}

/// A directory entry as it stands on disk: 32 bytes. An entry whose `inum`
/// is 0 is empty.
#[derive(Debug, Clone, Copy)]
pub struct DirEntry {
    pub inum: u32,
    /// The name, padded with zeros.
    pub name: [u8; 28],
}

/// A directory entry as a value of mathematics.
pub struct DirEntryView {
    pub inum: u32,
    pub name: Seq<u8>,
}

impl View for DirEntry {
    type V = DirEntryView;

    open spec fn view(&self) -> DirEntryView {
        DirEntryView { inum: self.inum, name: self.name@ }
    }
}

impl Default for DirEntry {
    fn default() -> (d: DirEntry)
        ensures
            d.inum == 0,
            d.name@ == Seq::new(28, |i: int| 0u8),
    {
        let d = DirEntry { inum: 0, name: [0u8; 28] };
        assert(d.name@ =~= Seq::new(28, |i: int| 0u8));
        d
    }
}

impl Record for DirEntry {
    open spec fn size() -> nat {
        32
    }

    open spec fn decode(s: Seq<u8>, off: int) -> DirEntryView {
        DirEntryView { inum: le32(s, off), name: s.subrange(off + 4, off + 32) }
    }

    open spec fn encode(v: DirEntryView, s: Seq<u8>, off: int) -> Seq<u8> {
        put_bytes(put32(s, off, v.inum), off + 4, v.name)
    }

    open spec fn valid(v: DirEntryView) -> bool {
        v.name.len() == 28
    }

    proof fn lemma_codec(v: DirEntryView, s: Seq<u8>, off: int) {
        let s1 = put32(s, off, v.inum);
        let s2 = put_bytes(s1, off + 4, v.name);
        lemma_le32_put32(s, off, v.inum);
        lemma_le32_same(s2, s1, off);
        assert(s2.subrange(off + 4, off + 32) =~= v.name);
    }

    fn byte_len() -> (n: usize) {
        32
    }

    fn load(buf: &[u8], off: usize) -> (r: DirEntry) {
        let total = buf.len();
        assert(off + 32 <= total);
        let mut name = [0u8; 28];
        load_bytes(buf, off + 4, &mut name);
        DirEntry { inum: read_u32(buf, off), name }
    }

    fn store(&self, buf: &mut [u8], off: usize) {
        let total = buf.len();
        assert(off + 32 <= total);
        write_u32(buf, off, self.inum);
        store_bytes(&self.name, buf, off + 4);
    }
}

/// The bytes `t` followed by zeros up to length `len`.
pub open spec fn padded(t: Seq<u8>, len: nat) -> Seq<u8> {
    Seq::new(len, |i: int| if i < t.len() { t[i] } else { 0u8 })
}

/// Whether the name field `s` holds the name `t`: the bytes of `t`, then
/// zeros.
pub open spec fn name_is(s: Seq<u8>, t: Seq<u8>) -> bool {
    t.len() <= s.len() && s == padded(t, s.len())
}

/// Whether the name field `s` holds the name `t`.
pub fn namecmp(s: &[u8], t: &String) -> (r: bool)
    ensures
        r == name_is(s@, encode_utf8(t@)),
{
    name_eq(s, t.as_str().as_bytes())
}

/// Whether the name field `s` holds the name `t`.
pub fn name_eq(s: &[u8], t: &[u8]) -> (r: bool)
    ensures
        r == name_is(s@, t@),
{
    let n = s.len();
    let m = t.len();
    if m > n {
        return false;
    }
    let mut i: usize = 0;
    while i < n
        invariant
            i <= n,
            n == s@.len(),
            m == t@.len(),
            m <= n,
            forall|j: int| 0 <= j < i ==> s@[j] == padded(t@, n as nat)[j],
        decreases n - i,
    {
        let want: u8 = if i < m { t[i] } else { 0 };
        if s[i] != want {
            assert(s@[i as int] != padded(t@, n as nat)[i as int]);
            return false;
        }
        i = i + 1;
    }
    assert(s@ =~= padded(t@, n as nat));
    true
}

/// Puts the name `t` into the name field `s`, padded with zeros. Fails,
/// and changes nothing, if the name is longer than the field.
pub fn nameassign(s: &mut [u8], t: &String) -> (r: Result<(), FsError>)
    ensures
        r is Ok <==> encode_utf8(t@).len() <= old(s)@.len(),
        r is Ok ==> final(s)@ == padded(encode_utf8(t@), old(s)@.len()),
        r matches Err(e) ==> e == FsError::NameTooLong && final(s)@ == old(s)@,
{
    name_set(s, t.as_str().as_bytes())
}

/// Puts the name `t` into the name field `s`, padded with zeros. Fails,
/// and changes nothing, if the name is longer than the field.
pub fn name_set(s: &mut [u8], t: &[u8]) -> (r: Result<(), FsError>)
    ensures
        r is Ok <==> t@.len() <= old(s)@.len(),
        r is Ok ==> final(s)@ == padded(t@, old(s)@.len()),
        r matches Err(e) ==> e == FsError::NameTooLong && final(s)@ == old(s)@,
{
    let n = s.len();
    let m = t.len();
    if m > n {
        return Err(FsError::NameTooLong);
    }
    let mut i: usize = 0;
    while i < n
        invariant
            i <= n,
            n == s@.len(),
            n == old(s)@.len(),
            m == t@.len(),
            m <= n,
            forall|j: int| 0 <= j < i ==> s@[j] == padded(t@, n as nat)[j],
        decreases n - i,
    {
        s[i] = if i < m { t[i] } else { 0 };
        i = i + 1;
    }
    assert(s@ =~= padded(t@, n as nat));
    Ok(())
}

/// The block that holds inode `inum`.
pub open spec fn inode_block(sb: SuperBlock, inum: int) -> int {
    sb.inodestart + inum / (IPB as int)
}

/// Where inode `inum` stands in its block.
pub open spec fn inode_offset(inum: int) -> int {
    (inum % (IPB as int)) * 64
}

/// Inode `inum` as the image holds it.
pub open spec fn dinode_at(img: Image, sb: SuperBlock, inum: int) -> DiskInodeView {
    DiskInode::decode(img[inode_block(sb, inum)], inode_offset(inum))
}

/// The inode block of `inum` with `d` in the place of the inode.
pub open spec fn dinode_block_with(img: Image, sb: SuperBlock, inum: int, d: DiskInodeView) -> Seq<
    u8,
> {
    DiskInode::encode(d, img[inode_block(sb, inum)], inode_offset(inum))
}

/// The block of an inode is one of the inode blocks, and the inode lies
/// inside it.
pub proof fn lemma_inode_block_range(sb: SuperBlock, inum: int)
    requires
        sb.layout_ok(),
        0 <= inum < sb.ninodes,
    ensures
        sb.inodestart <= inode_block(sb, inum) < sb.bmapstart,
        inode_block(sb, inum) < sb.size,
        0 <= inode_offset(inum),
        inode_offset(inum) + 64 <= 512,
{
}

/// The block and the offset of inode `inum`.
pub fn addr_of_inode(sb: &SuperBlock, inum: u32) -> (r: (u32, u32))
    requires
        sb.layout_ok(),
        inum < sb.ninodes,
    ensures
        r.0 == inode_block(*sb, inum as int),
        r.1 == inode_offset(inum as int),
{
    proof {
        lemma_inode_block_range(*sb, inum as int);
    }
    (inum / IPB + sb.inodestart, inum % IPB * DINODE_SIZE)
}

/// Reads inode `inum`.
pub fn read_dinode<D: BlockDevice>(vol: &mut Volume<D>, inum: u32) -> (d: DiskInode)
    requires
        old(vol).inv(),
        inum < old(vol).sb.ninodes,
    ensures
        final(vol).inv(),
        final(vol).stays(old(vol)),
        final(vol).state() == old(vol).state(),
        d@ == dinode_at(old(vol).image(), old(vol).sb, inum as int),
{
    proof {
        lemma_inode_block_range(vol.sb, inum as int);
    }
    let (blk, off) = addr_of_inode(&vol.sb, inum);
    let data = vol.bread(blk);
    DiskInode::load(&data, off as usize)
}

/// Writes `d` as inode `inum`, as part of the open transaction.
pub fn write_dinode<D: BlockDevice>(vol: &mut Volume<D>, inum: u32, d: &DiskInode) -> (r: Result<
    (),
    FsError,
>)
    requires
        old(vol).inv(),
        old(vol).in_txn(),
        inum < old(vol).sb.ninodes,
    ensures
        final(vol).inv(),
        final(vol).stays(old(vol)),
        (final(vol).state(), r) == bwrite_spec(
            old(vol).state(),
            inode_block(old(vol).sb, inum as int) as u32,
            dinode_block_with(old(vol).image(), old(vol).sb, inum as int, d@),
        ),
{
    proof {
        lemma_inode_block_range(vol.sb, inum as int);
    }
    let (blk, off) = addr_of_inode(&vol.sb, inum);
    let mut data = vol.bread(blk);
    let ghost v1 = *vol;
    d.store(&mut data, off as usize);
    let r = vol.bwrite(blk, &data);
    proof {
        vol.lemma_stays_trans(&v1, old(vol));
    }
    r
}

/// The inode with block `b` in slot `i`.
pub open spec fn with_addr(d: DiskInodeView, i: int, b: u32) -> DiskInodeView {
    DiskInodeView { addrs: d.addrs.update(i, b), ..d }
}

/// What looking up or allocating the block behind entry `k` of the
/// indirect block `ind` does.
#[verifier::opaque]
pub open spec fn indirect_map_spec(st: VolState, sb: SuperBlock, ind: u32, k: int) -> (
    VolState,
    Result<u32, FsError>,
) {
    let a = le32(st.image[ind as int], 4 * k);
    if a != 0 {
        if is_data_block(sb, a as int) {
            (st, Ok(a))
        } else {
            (st, Err(FsError::Corrupt))
        }
    } else {
        let (s1, r1) = reserve_spec(st, ind);
        match r1 {
            Err(e) => (s1, Err(e)),
            Ok(_) => {
                let (s2, r2) = balloc_spec(s1, sb);
                match r2 {
                    Err(e) => (s2, Err(e)),
                    Ok(b) => (
                        bwrite_spec(s2, ind, put32(s2.image[ind as int], 4 * k, b)).0,
                        Ok(b),
                    ),
                }
            },
        }
    }
}

/// What mapping logical block `bn` of an inode does. The block that the
/// inode names for `bn` is returned if it names one; it has to be a block
/// of the data area. Else a block is allocated and entered: in the inode
/// for a direct block, in the indirect block for the others, and the
/// indirect block is allocated first if the inode has none. A logical
/// block beyond the largest file maps to 0.
#[verifier::opaque]
pub open spec fn block_map_spec(st: VolState, sb: SuperBlock, d: DiskInodeView, bn: u32) -> (
    VolState,
    DiskInodeView,
    Result<u32, FsError>,
) {
    if bn >= MAXFILE {
        (st, d, Ok(0u32))
    } else if bn < NDIRECT {
        let a = d.addrs[bn as int];
        if a != 0 {
            if is_data_block(sb, a as int) {
                (st, d, Ok(a))
            } else {
                (st, d, Err(FsError::Corrupt))
            }
        } else {
            let (s1, r1) = balloc_spec(st, sb);
            match r1 {
                Ok(b) => (s1, with_addr(d, bn as int, b), Ok(b)),
                Err(e) => (s1, d, Err(e)),
            }
        }
    } else {
        let ind0 = d.addrs[NDIRECT as int];
        if ind0 != 0 {
            if is_data_block(sb, ind0 as int) {
                let (s1, r1) = indirect_map_spec(st, sb, ind0, bn - NDIRECT);
                (s1, d, r1)
            } else {
                (st, d, Err(FsError::Corrupt))
            }
        } else {
            let (s1, r1) = balloc_spec(st, sb);
            match r1 {
                Err(e) => (s1, d, Err(e)),
                Ok(ind) => {
                    let (s2, r2) = indirect_map_spec(s1, sb, ind, bn - NDIRECT);
                    (s2, with_addr(d, NDIRECT as int, ind), r2)
                },
            }
        }
    }
}

/// Looks up, or allocates and enters, the block behind entry `k` of the
/// indirect block `ind`; see `indirect_map_spec`.
fn indirect_map<D: BlockDevice>(vol: &mut Volume<D>, ind: u32, k: u32) -> (r: Result<u32, FsError>)
    requires
        old(vol).inv(),
        old(vol).in_txn(),
        is_data_block(old(vol).sb, ind as int),
        k < NINDIRECT,
    ensures
        final(vol).inv(),
        final(vol).stays(old(vol)),
        (final(vol).state(), r) == indirect_map_spec(old(vol).state(), old(vol).sb, ind, k as int),
        r matches Ok(b) ==> is_data_block(old(vol).sb, b as int),
{
    proof {
        reveal(indirect_map_spec);
    }
    let blk = vol.bread(ind);
    let ghost v0 = *vol;
    let a = read_u32(&blk, (4 * k) as usize);
    if a != 0 {
        if data_block(&vol.sb, a) {
            return Ok(a);
        } else {
            return Err(FsError::Corrupt);
        }
    }
    match vol.reserve(ind) {
        Err(e) => {
            proof {
                vol.lemma_stays_trans(&v0, old(vol));
            }
            return Err(e);
        },
        Ok(()) => {},
    }
    let ghost v1 = *vol;
    match balloc(vol) {
        Err(e) => {
            proof {
                vol.lemma_stays_trans(&v1, old(vol));
            }
            Err(e)
        },
        Ok(b) => {
            let ghost v2 = *vol;
            let mut cur = vol.bread(ind);
            write_u32(&mut cur, (4 * k) as usize, b);
            let ghost v3 = *vol;
            let r = vol.bwrite(ind, &cur);
            proof {
                vol.lemma_stays_trans(&v3, &v2);
                vol.lemma_stays_trans(&v2, &v1);
                vol.lemma_stays_trans(&v1, old(vol));
                assert(v2.state().logged.contains(ind)) by {
                    crate::bitmap::lemma_balloc_keeps_logged(v1.state(), v1.sb, ind);
                }
            }
            Ok(b)
        },
    }
}

/// Whether `b` is a block of the data area.
pub fn data_block(sb: &SuperBlock, b: u32) -> (r: bool)
    requires
        sb.layout_ok(),
    ensures
        r == is_data_block(*sb, b as int),
{
    let bblocks: u32 = ((sb.size as u64 + crate::fs::BPB as u64 - 1) / (crate::fs::BPB as u64)) as u32;
    let start: u32 = sb.bmapstart + bblocks;
    start <= b && b < sb.size
}

/// The block of the volume that holds logical block `offset_bn` of an
/// inode; see `block_map_spec`. What it enters in the inode it enters in
/// `diskinode`, which the caller has to write back.
pub fn block_map<D: BlockDevice>(
    diskinode: &mut DiskInode,
    vol: &mut Volume<D>,
    offset_bn: u32,
) -> (r: Result<u32, FsError>)
    requires
        old(vol).inv(),
        old(vol).in_txn(),
    ensures
        final(vol).inv(),
        final(vol).stays(old(vol)),
        (final(vol).state(), final(diskinode)@, r) == block_map_spec(
            old(vol).state(),
            old(vol).sb,
            old(diskinode)@,
            offset_bn,
        ),
        r matches Ok(b) ==> (offset_bn < MAXFILE ==> is_data_block(old(vol).sb, b as int)) && (
        offset_bn >= MAXFILE ==> b == 0),
{
    proof {
        vol.lemma_stays_refl();
        reveal(block_map_spec);
    }
    if offset_bn >= MAXFILE {
        return Ok(0);
    }
    if offset_bn < NDIRECT {
        let a = diskinode.addrs[offset_bn as usize];
        if a != 0 {
            if data_block(&vol.sb, a) {
                return Ok(a);
            } else {
                return Err(FsError::Corrupt);
            }
        }
        return match balloc(vol) {
            Ok(b) => {
                diskinode.addrs[offset_bn as usize] = b;
                Ok(b)
            },
            Err(e) => Err(e),
        };
    }
    let k = offset_bn - NDIRECT;
    let ind0 = diskinode.addrs[NDIRECT as usize];
    if ind0 != 0 {
        if !data_block(&vol.sb, ind0) {
            return Err(FsError::Corrupt);
        }
        return indirect_map(vol, ind0, k);
    }
    match balloc(vol) {
        Err(e) => Err(e),
        Ok(ind) => {
            diskinode.addrs[NDIRECT as usize] = ind;
            let ghost v1 = *vol;
            let r = indirect_map(vol, ind, k);
            proof {
                vol.lemma_stays_trans(&v1, old(vol));
            }
            r
        },
    }
}

/// What freeing the first `k` blocks of `list` does: each one that is not 0
/// is freed, in order, up to the first that cannot be freed.
pub open spec fn free_list_spec(st: VolState, sb: SuperBlock, list: Seq<u32>, k: int) -> (
    VolState,
    Result<(), FsError>,
)
    decreases k,
{
    if k <= 0 {
        (st, Ok(()))
    } else {
        let (s1, r1) = free_list_spec(st, sb, list, k - 1);
        match r1 {
            Err(e) => (s1, Err(e)),
            Ok(_) => if list[k - 1] == 0 {
                (s1, Ok(()))
            } else {
                block_free_spec(s1, sb, list[k - 1])
            },
        }
    }
}

/// The blocks that an inode holds, in the order in which truncation frees
/// them: the direct blocks, the blocks that the indirect block names, the
/// indirect block.
pub open spec fn blocks_of(img: Image, d: DiskInodeView) -> Seq<u32> {
    let ind = d.addrs[NDIRECT as int];
    if ind == 0 {
        d.addrs.take(NDIRECT as int)
    } else {
        d.addrs.take(NDIRECT as int) + le32_seq(img[ind as int], 0, NINDIRECT as nat).push(ind)
    }
}

/// The inode without blocks.
pub open spec fn without_blocks(d: DiskInodeView) -> DiskInodeView {
    DiskInodeView { addrs: Seq::new(13, |i: int| 0u32), ..d }
}

/// What reserving the bitmap blocks of the first `k` blocks of `list` does:
/// for each of them that is a block of the data area, its bitmap block
/// becomes part of the open transaction, up to the first for which the
/// transaction has no room. No block changes.
pub open spec fn reserve_list_spec(st: VolState, sb: SuperBlock, list: Seq<u32>, k: int) -> (
    VolState,
    Result<(), FsError>,
)
    decreases k,
{
    if k <= 0 {
        (st, Ok(()))
    } else {
        let (s1, r1) = reserve_list_spec(st, sb, list, k - 1);
        match r1 {
            Err(e) => (s1, Err(e)),
            Ok(_) => if !is_data_block(sb, list[k - 1] as int) {
                (s1, Ok(()))
            } else {
                reserve_spec(s1, bitmap_block(sb, list[k - 1] as int) as u32)
            },
        }
    }
}

/// What truncating an inode does: every block that it holds is freed and
/// the inode holds none afterwards. The bitmap blocks are reserved first,
/// so that nothing is freed if the open transaction has no room for them.
/// Where a block cannot be freed, the blocks before it are freed and the
/// inode is left as it was. Nothing changes if the indirect block is no
/// block of the data area.
pub open spec fn truncate_spec(st: VolState, sb: SuperBlock, d: DiskInodeView) -> (
    VolState,
    DiskInodeView,
    Result<(), FsError>,
) {
    let ind = d.addrs[NDIRECT as int];
    if ind != 0 && !is_data_block(sb, ind as int) {
        (st, d, Err(FsError::Corrupt))
    } else {
        let list = blocks_of(st.image, d);
        let (s0, r0) = reserve_list_spec(st, sb, list, list.len() as int);
        match r0 {
            Err(e) => (s0, d, Err(e)),
            Ok(_) => {
                let (s1, r1) = free_list_spec(s0, sb, list, list.len() as int);
                match r1 {
                    Ok(_) => (s1, without_blocks(d), Ok(())),
                    Err(e) => (s1, d, Err(e)),
                }
            },
        }
    }
}

/// Reserving bitmap blocks changes no block.
pub proof fn lemma_reserve_list(st: VolState, sb: SuperBlock, list: Seq<u32>, k: int)
    requires
        0 <= k <= list.len(),
    ensures
        reserve_list_spec(st, sb, list, k).0.image == st.image,
        forall|c: u32|
            st.logged.contains(c) ==> reserve_list_spec(st, sb, list, k).0.logged.contains(c),
        reserve_list_spec(st, sb, list, k).1 is Ok ==> forall|j: int|
            0 <= j < k && is_data_block(sb, list[j] as int) ==> reserve_list_spec(
                st,
                sb,
                list,
                k,
            ).0.logged.contains(bitmap_block(sb, (#[trigger] list[j]) as int) as u32),
    decreases k,
{
    if k > 0 {
        lemma_reserve_list(st, sb, list, k - 1);
    }
}

/// Once a bitmap block could not be reserved, nothing more is reserved.
pub proof fn lemma_reserve_list_stops(st: VolState, sb: SuperBlock, list: Seq<u32>, k: int, n: int)
    requires
        0 <= k <= n,
        reserve_list_spec(st, sb, list, k).1 is Err,
    ensures
        reserve_list_spec(st, sb, list, n) == reserve_list_spec(st, sb, list, k),
    decreases n - k,
{
    if k < n {
        lemma_reserve_list_stops(st, sb, list, k, n - 1);
    }
}

/// An inode in memory: a slot of the inode table. The on-disk inode is
/// read through the buffer cache whenever it is needed, so that no second
/// copy of it can go stale.
#[derive(Debug, Clone, Copy, PartialEq, Eq, Structural)]
pub struct Inode {
    pub inum: u32,
    /// The number of handles on the inode that are held.
    pub refs: u32,
}

impl Inode {
    /// A slot that is not in use.
    pub fn new() -> (i: Inode)
        ensures
            i.inum == 0,
            i.refs == 0,
    {
        Inode { inum: 0, refs: 0 }
    }

    /// Frees every block that the inode holds; see `truncate_spec`. The
    /// caller has to write `dinode` back.
    pub fn truncate<D: BlockDevice>(vol: &mut Volume<D>, dinode: &mut DiskInode) -> (r: Result<
        (),
        FsError,
    >)
        requires
            old(vol).inv(),
            old(vol).in_txn(),
        ensures
            final(vol).inv(),
            final(vol).stays(old(vol)),
            (final(vol).state(), final(dinode)@, r) == truncate_spec(
                old(vol).state(),
                old(vol).sb,
                old(dinode)@,
            ),
    {
        proof {
            vol.lemma_stays_refl();
        }
        let ind = dinode.addrs[NDIRECT as usize];
        if ind != 0 && !data_block(&vol.sb, ind) {
            return Err(FsError::Corrupt);
        }
        let ghost st0 = vol.state();
        let ghost sb = vol.sb;
        let ghost want = blocks_of(st0.image, dinode@);
        // the blocks to free
        let mut list: Vec<u32> = Vec::new();
        let mut i: usize = 0;
        while i < NDIRECT as usize
            invariant
                i <= NDIRECT,
                list@ == dinode.addrs@.take(i as int),
            decreases NDIRECT - i,
        {
            list.push(dinode.addrs[i]);
            proof {
                assert(dinode.addrs@.take(i as int).push(dinode.addrs@[i as int])
                    =~= dinode.addrs@.take(i + 1));
            }
            i = i + 1;
        }
        if ind != 0 {
            let blk = vol.bread(ind);
            let mut children = [0u32; 128];
            load_words(&blk, 0, &mut children);
            let mut j: usize = 0;
            while j < 128
                invariant
                    j <= 128,
                    list@ == dinode.addrs@.take(NDIRECT as int) + children@.take(j as int),
                decreases 128 - j,
            {
                list.push(children[j]);
                proof {
                    assert((dinode.addrs@.take(NDIRECT as int) + children@.take(j as int)).push(
                        children@[j as int],
                    ) =~= dinode.addrs@.take(NDIRECT as int) + children@.take(j + 1));
                }
                j = j + 1;
            }
            list.push(ind);
            proof {
                assert(children@.take(128) =~= children@);
                assert(list@ =~= want);
            }
        } else {
            proof {
                assert(list@ =~= want);
            }
        }
        let n = list.len();
        let mut q: usize = 0;
        while q < n
            invariant
                q <= n,
                n == list@.len(),
                sb == old(vol).sb,
                st0 == old(vol).state(),
                vol.inv(),
                vol.in_txn(),
                vol.stays(old(vol)),
                *dinode == *old(dinode),
                list@ == blocks_of(st0.image, old(dinode)@),
                old(dinode).addrs@[NDIRECT as int] == 0 || is_data_block(
                    sb,
                    old(dinode).addrs@[NDIRECT as int] as int,
                ),
                reserve_list_spec(st0, sb, list@, q as int).0 == vol.state(),
                reserve_list_spec(st0, sb, list@, q as int).1 is Ok,
            decreases n - q,
        {
            let b = list[q];
            if data_block(&vol.sb, b) {
                proof {
                    lemma_bitmap_block_range(sb, b as int);
                }
                let bno = vol.sb.bmapstart + b / crate::fs::BPB;
                let ghost v1 = *vol;
                let reserved = vol.reserve(bno);
                proof {
                    vol.lemma_stays_trans(&v1, old(vol));
                    assert(reserve_list_spec(st0, sb, list@, q + 1) == reserve_spec(
                        v1.state(),
                        bno,
                    ));
                }
                match reserved {
                    Err(e) => {
                        proof {
                            lemma_reserve_list_stops(st0, sb, list@, q + 1, n as int);
                        }
                        return Err(e);
                    },
                    Ok(()) => {},
                }
            } else {
                proof {
                    assert(reserve_list_spec(st0, sb, list@, q + 1).0 == vol.state());
                }
            }
            q = q + 1;
        }
        let ghost st1 = vol.state();
        let mut k: usize = 0;
        while k < n
            invariant
                k <= n,
                n == list@.len(),
                sb == old(vol).sb,
                st0 == old(vol).state(),
                reserve_list_spec(st0, sb, list@, n as int).0 == st1,
                reserve_list_spec(st0, sb, list@, n as int).1 is Ok,
                vol.inv(),
                vol.in_txn(),
                vol.stays(old(vol)),
                *dinode == *old(dinode),
                list@ == blocks_of(st0.image, old(dinode)@),
                old(dinode).addrs@[NDIRECT as int] == 0 || is_data_block(
                    sb,
                    old(dinode).addrs@[NDIRECT as int] as int,
                ),
                free_list_spec(st1, sb, list@, k as int).0 == vol.state(),
                free_list_spec(st1, sb, list@, k as int).1 is Ok,
            decreases n - k,
        {
            let b = list[k];
            if b != 0 {
                let ghost v1 = *vol;
                let freed = block_free(vol, b);
                assert((vol.state(), freed) == block_free_spec(v1.state(), sb, b));
                match freed {
                    Err(e) => {
                        proof {
                            vol.lemma_stays_trans(&v1, old(vol));
                            assert(free_list_spec(st1, sb, list@, k + 1) == block_free_spec(
                                v1.state(),
                                sb,
                                list@[k as int],
                            ));
                            lemma_free_list_stops(st1, sb, list@, k + 1, n as int);
                        }
                        return Err(e);
                    },
                    Ok(()) => {
                        proof {
                            vol.lemma_stays_trans(&v1, old(vol));
                            assert(free_list_spec(st1, sb, list@, k + 1) == block_free_spec(
                                v1.state(),
                                sb,
                                list@[k as int],
                            ));
                        }
                    },
                }
            } else {
                proof {
                    assert(free_list_spec(st1, sb, list@, k + 1).0 == vol.state());
                }
            }
            k = k + 1;
        }
        let mut z: usize = 0;
        while z < 13
            invariant
                z <= 13,
                forall|q: int| 0 <= q < z ==> dinode.addrs@[q] == 0,
                dinode.dev == old(dinode).dev,
                dinode.ftype == old(dinode).ftype,
                dinode.nlink == old(dinode).nlink,
                dinode.size == old(dinode).size,
            decreases 13 - z,
        {
            dinode.addrs[z] = 0;
            z = z + 1;
        }
        proof {
            assert(dinode.addrs@ =~= Seq::new(13, |i: int| 0u32));
        }
        Ok(())
    }
}

/// Once a block of the list could not be freed, nothing more is freed.
pub proof fn lemma_free_list_stops(st: VolState, sb: SuperBlock, list: Seq<u32>, k: int, n: int)
    requires
        0 <= k <= n,
        free_list_spec(st, sb, list, k).1 is Err,
    ensures
        free_list_spec(st, sb, list, n) == free_list_spec(st, sb, list, k),
    decreases n - k,
{
    if k < n {
        lemma_free_list_stops(st, sb, list, k, n - 1);
    }
}

/// The number of bytes that one step moves when the position in the file
/// is `pos` and `left` bytes are to go: up to the end of the block.
pub open spec fn span(pos: int, left: int) -> int {
    if left < 512 - pos % 512 {
        left
    } else {
        512 - pos % 512
    }
}

/// The largest size of a file, in bytes.
pub open spec fn max_bytes() -> int {
    MAXFILE * 512
}

/// The result of a transfer that moved `tot` bytes and was stopped by
/// `err`, if by anything: the error where nothing was moved, and else the
/// number of bytes.
pub open spec fn transfer_result(tot: int, err: Option<FsError>) -> Result<usize, FsError> {
    match err {
        Some(e) if tot == 0 => Err(e),
        _ => Ok(tot as usize),
    }
}

/// The byte at position `pos` of the contents of an inode: the byte at
/// that place of the block that the inode names for the position, and 0
/// where the inode names no block.
pub open spec fn content_byte(img: Image, sb: SuperBlock, d: DiskInodeView, pos: int) -> u8 {
    match mapped_spec(img, sb, d, pos / 512) {
        Ok(p) => if p == 0 {
            0u8
        } else {
            img[p as int][pos % 512]
        },
        Err(_) => 0u8,
    }
}

/// The bytes `off..off + len` of the contents of an inode.
pub open spec fn content(img: Image, sb: SuperBlock, d: DiskInodeView, off: int, len: int) -> Seq<
    u8,
> {
    Seq::new(len as nat, |j: int| content_byte(img, sb, d, off + j))
}

/// The number of bytes that a read of `n` bytes at offset `off` gives: the
/// request is cut at the end of the file, and nothing is read at or
/// beyond it.
pub open spec fn read_len(d: DiskInodeView, off: int, n: int) -> int {
    let end = if d.size < max_bytes() {
        d.size as int
    } else {
        max_bytes()
    };
    if off >= end {
        0
    } else if n < end - off {
        n
    } else {
        end - off
    }
}

/// Whether logical block `bn` can be read: what the inode names for it is
/// a block of the data area, or nothing.
#[verifier::opaque]
pub open spec fn can_map(img: Image, sb: SuperBlock, d: DiskInodeView, bn: int) -> bool {
    mapped_spec(img, sb, d, bn) is Ok
}

/// What `can_map` says.
pub proof fn lemma_can_map(img: Image, sb: SuperBlock, d: DiskInodeView, bn: int)
    ensures
        can_map(img, sb, d, bn) == (mapped_spec(img, sb, d, bn) is Ok),
{
    reveal(can_map);
}

/// Whether the logical blocks from `lo` up to `hi` can be read.
pub open spec fn readable(img: Image, sb: SuperBlock, d: DiskInodeView, lo: int, hi: int) -> bool {
    forall|bn: int| lo <= bn < hi ==> #[trigger] can_map(img, sb, d, bn)
}

/// The logical block behind the last one that holds a byte of
/// `off..off + len`.
pub open spec fn block_end(off: int, len: int) -> int {
    (off + len + 511) / 512
}

/// What reading `n` bytes at offset `off` of an inode's contents gives:
/// the bytes of the contents from `off` on, as many as `read_len` says,
/// at the start of `dst`. Nothing is read if the inode names, for a part
/// of the request, what is no block of the data area.
pub open spec fn iread_spec(
    img: Image,
    sb: SuperBlock,
    d: DiskInodeView,
    dst: Seq<u8>,
    off: int,
    n: int,
) -> (Seq<u8>, Result<usize, FsError>) {
    let len = read_len(d, off, n);
    if len > 0 && !readable(img, sb, d, off / 512, block_end(off, len)) {
        (dst, Err(FsError::Corrupt))
    } else {
        (put_bytes(dst, 0, content(img, sb, d, off, len)), Ok(len as usize))
    }
}

/// What writing bytes `tot..n` of `src` at offset `off` does, block by
/// block: each block is mapped, which allocates it if the inode has none
/// there, and gets its part of the bytes as part of the open transaction.
pub open spec fn write_steps(
    st: VolState,
    sb: SuperBlock,
    d: DiskInodeView,
    src: Seq<u8>,
    off: int,
    n: int,
    tot: int,
) -> (VolState, DiskInodeView, int, Option<FsError>)
    decreases n - tot,
{
    if tot >= n {
        (st, d, tot, None)
    } else {
        let pos = off + tot;
        let (s1, d1, r1) = block_map_spec(st, sb, d, (pos / 512) as u32);
        match r1 {
            Err(e) => (s1, d1, tot, Some(e)),
            Ok(p) => {
                let m = span(pos, n - tot);
                let blk = put_bytes(s1.image[p as int], pos % 512, src.subrange(tot, tot + m));
                let (s2, r2) = bwrite_spec(s1, p, blk);
                match r2 {
                    Err(e) => (s2, d1, tot, Some(e)),
                    Ok(_) => write_steps(s2, sb, d1, src, off, n, tot + m),
                }
            },
        }
    }
}

/// What writing the first `n` bytes of `src` at offset `off` of an inode's
/// contents does. The request is cut at the largest size of a file. The
/// inode's size grows to the end of what was written.
pub open spec fn iwrite_spec(
    st: VolState,
    sb: SuperBlock,
    d: DiskInodeView,
    src: Seq<u8>,
    off: int,
    n: int,
) -> (VolState, DiskInodeView, Result<usize, FsError>) {
    let n1 = if off >= max_bytes() {
        0
    } else if n < max_bytes() - off {
        n
    } else {
        max_bytes() - off
    };
    let (s1, d1, tot, err) = write_steps(st, sb, d, src, off, n1, 0);
    let d2 = if off + tot > d1.size && off + tot <= max_bytes() {
        DiskInodeView { size: (off + tot) as u32, ..d1 }
    } else {
        d1
    };
    (s1, d2, transfer_result(tot, err))
}

/// Whether the logical blocks from `lo` up to `hi` can be read; see
/// `readable`.
fn can_read<D: BlockDevice>(vol: &mut Volume<D>, di: &DiskInode, lo: u32, hi: u32) -> (r: bool)
    requires
        old(vol).inv(),
    ensures
        final(vol).inv(),
        final(vol).stays(old(vol)),
        final(vol).state() == old(vol).state(),
        r == readable(old(vol).image(), old(vol).sb, di@, lo as int, hi as int),
{
    proof {
        vol.lemma_stays_refl();
    }
    let mut bn: u32 = lo;
    while bn < hi
        invariant
            lo <= bn,
            vol.inv(),
            vol.stays(old(vol)),
            vol.state() == old(vol).state(),
            readable(old(vol).image(), old(vol).sb, di@, lo as int, bn as int),
        decreases hi - bn,
    {
        let ghost v1 = *vol;
        let got = block_lookup(vol, di, bn);
        proof {
            vol.lemma_stays_trans(&v1, old(vol));
        }
        match got {
            Err(_) => {
                proof {
                    lemma_can_map(old(vol).image(), old(vol).sb, di@, bn as int);
                    assert(!can_map(old(vol).image(), old(vol).sb, di@, bn as int));
                }
                return false;
            },
            Ok(_) => {
                proof {
                    lemma_can_map(old(vol).image(), old(vol).sb, di@, bn as int);
                }
            },
        }
        bn = bn + 1;
    }
    true
}

/// Reads up to `n` bytes at offset `off` of an inode's contents into
/// `dst`; see `iread_spec`. Nothing on the volume changes.
pub fn iread<D: BlockDevice>(
    vol: &mut Volume<D>,
    di: &DiskInode,
    dst: &mut [u8],
    off: usize,
    n: usize,
) -> (r: Result<usize, FsError>)
    requires
        old(vol).inv(),
        n <= old(dst)@.len(),
    ensures
        final(vol).inv(),
        final(vol).stays(old(vol)),
        final(vol).state() == old(vol).state(),
        final(dst)@.len() == old(dst)@.len(),
        (final(dst)@, r) == iread_spec(
            old(vol).image(),
            old(vol).sb,
            di@,
            old(dst)@,
            off as int,
            n as int,
        ),
{
    proof {
        vol.lemma_stays_refl();
        assert(max_bytes() == 71680);
    }
    let ghost img = vol.image();
    let ghost sb = vol.sb;
    let lim: usize = (MAXFILE * BLOCK_SIZE) as usize;
    let size = di.size as usize;
    let end: usize = if size < lim { size } else { lim };
    if off >= end {
        proof {
            assert(put_bytes(dst@, 0, content(img, sb, di@, off as int, 0)) =~= dst@);
        }
        return Ok(0);
    }
    let n1: usize = if n < end - off { n } else { end - off };
    if n1 == 0 {
        proof {
            assert(put_bytes(dst@, 0, content(img, sb, di@, off as int, 0)) =~= dst@);
        }
        return Ok(0);
    }
    let lo = (off / 512) as u32;
    let hi = ((off + n1 + 511) / 512) as u32;
    if !can_read(vol, di, lo, hi) {
        return Err(FsError::Corrupt);
    }
    let mut tot: usize = 0;
    while tot < n1
        invariant
            0 < n1,
            tot <= n1,
            n1 <= n,
            n <= dst@.len(),
            dst@.len() == old(dst)@.len(),
            off + n1 <= max_bytes(),
            lo == off / 512,
            hi == (off + n1 + 511) / 512,
            img == old(vol).image(),
            sb == old(vol).sb,
            vol.inv(),
            vol.stays(old(vol)),
            vol.state() == old(vol).state(),
            readable(img, sb, di@, lo as int, hi as int),
            forall|j: int| 0 <= j < tot ==> dst@[j] == content_byte(img, sb, di@, off + j),
            forall|j: int| tot <= j < dst@.len() ==> dst@[j] == old(dst)@[j],
        decreases n1 - tot,
    {
        let pos = off + tot;
        let bn = (pos / 512) as u32;
        let o = pos % 512;
        let m: usize = if n1 - tot < 512 - o { n1 - tot } else { 512 - o };
        let ghost before = dst@;
        let ghost v1 = *vol;
        proof {
            assert(lo <= bn < hi);
            assert(can_map(img, sb, di@, bn as int));
            lemma_can_map(img, sb, di@, bn as int);
        }
        let p = match block_lookup(vol, di, bn) {
            Err(_) => 0u32,
            Ok(p) => p,
        };
        let ghost v2 = *vol;
        let blk = if p == 0 {
            proof {
                vol.lemma_stays_refl();
            }
            [0u8; 512]
        } else {
            vol.bread(p)
        };
        copy_bytes(dst, tot, &blk, o, m);
        proof {
            vol.lemma_stays_trans(&v2, &v1);
            vol.lemma_stays_trans(&v1, old(vol));
            assert forall|j: int| 0 <= j < tot + m implies dst@[j] == #[trigger] content_byte(
                img,
                sb,
                di@,
                off + j,
            ) by {
                if j >= tot {
                    assert((off + j) / 512 == bn as int);
                    assert((off + j) % 512 == o + (j - tot));
                    assert(dst@[j] == blk@.subrange(o as int, o + m)[j - tot]);
                } else {
                    assert(dst@[j] == before[j]);
                }
            }
            assert forall|j: int| tot + m <= j < dst@.len() implies dst@[j] == old(dst)@[j] by {
                assert(dst@[j] == before[j]);
            }
        }
        tot = tot + m;
    }
    proof {
        assert(dst@ =~= put_bytes(old(dst)@, 0, content(img, sb, di@, off as int, n1 as int)));
    }
    Ok(n1)
}

/// Writes the first `n` bytes of `src` at offset `off` of an inode's
/// contents; see `iwrite_spec`. The caller has to write `di` back.
pub fn iwrite<D: BlockDevice>(
    vol: &mut Volume<D>,
    di: &mut DiskInode,
    src: &[u8],
    off: usize,
    n: usize,
) -> (r: Result<usize, FsError>)
    requires
        old(vol).inv(),
        old(vol).in_txn(),
        n <= src@.len(),
    ensures
        final(vol).inv(),
        final(vol).stays(old(vol)),
        (final(vol).state(), final(di)@, r) == iwrite_spec(
            old(vol).state(),
            old(vol).sb,
            old(di)@,
            src@,
            off as int,
            n as int,
        ),
{
    proof {
        vol.lemma_stays_refl();
    }
    let lim: usize = (MAXFILE * BLOCK_SIZE) as usize;
    let n1: usize = if off >= lim {
        0
    } else if n < lim - off {
        n
    } else {
        lim - off
    };
    let ghost st0 = vol.state();
    let ghost sb = vol.sb;
    let ghost d0 = di@;
    let mut tot: usize = 0;
    let mut err: Option<FsError> = None;
    while tot < n1
        invariant_except_break
            err is None,
            write_steps(st0, sb, d0, src@, off as int, n1 as int, 0) == write_steps(
                vol.state(),
                sb,
                di@,
                src@,
                off as int,
                n1 as int,
                tot as int,
            ),
        invariant
            tot <= n1,
            n1 <= n,
            n <= src@.len(),
            n1 > 0 ==> off + n1 <= max_bytes(),
            sb == old(vol).sb,
            vol.inv(),
            vol.in_txn(),
            vol.stays(old(vol)),
        ensures
            tot <= n1,
            n1 > 0 ==> off + n1 <= max_bytes(),
            vol.inv(),
            vol.stays(old(vol)),
            write_steps(st0, sb, d0, src@, off as int, n1 as int, 0) == (
                vol.state(),
                di@,
                tot as int,
                err,
            ),
        decreases n1 - tot,
    {
        let pos = off + tot;
        let bn = (pos / 512) as u32;
        let ghost v1 = *vol;
        match block_map(di, vol, bn) {
            Err(e) => {
                proof {
                    vol.lemma_stays_trans(&v1, old(vol));
                }
                err = Some(e);
                break ;
            },
            Ok(p) => {
                let ghost v2 = *vol;
                let mut blk = vol.bread(p);
                let o = pos % 512;
                let m: usize = if n1 - tot < 512 - o { n1 - tot } else { 512 - o };
                copy_bytes(&mut blk, o, src, tot, m);
                let ghost v3 = *vol;
                match vol.bwrite(p, &blk) {
                    Err(e) => {
                        proof {
                            vol.lemma_stays_trans(&v3, &v2);
                            vol.lemma_stays_trans(&v2, &v1);
                            vol.lemma_stays_trans(&v1, old(vol));
                        }
                        err = Some(e);
                        break ;
                    },
                    Ok(()) => {
                        proof {
                            vol.lemma_stays_trans(&v3, &v2);
                            vol.lemma_stays_trans(&v2, &v1);
                            vol.lemma_stays_trans(&v1, old(vol));
                        }
                    },
                }
                tot = tot + m;
            },
        }
    }
    if off + tot > di.size as usize && off + tot <= lim {
        di.size = (off + tot) as u32;
    }
    match err {
        Some(e) => if tot == 0 {
            Err(e)
        } else {
            Ok(tot)
        },
        None => Ok(tot),
    }
}

/// A handle on an inode in memory: the slot of the inode table and the
/// number of the inode. It is valid from the call that gave it out until
/// it is released.
#[derive(Debug, Clone, Copy, PartialEq, Eq, Structural)]
pub struct InodePtr {
    pub slot: usize,
    pub inum: u32,
}

impl InodePtr {
    /// A handle on nothing.
    pub fn new() -> (ip: InodePtr)
        ensures
            ip.inum == 0,
            ip.slot == usize::MAX,
    {
        InodePtr { slot: usize::MAX, inum: 0 }
    }
}

/// Slot `i` is the first slot that nobody holds.
pub open spec fn first_free_slot(s: Seq<Inode>, i: int) -> bool {
    &&& 0 <= i < s.len()
    &&& s[i].refs == 0
    &&& forall|j: int| 0 <= j < i ==> (#[trigger] s[j]).refs > 0
}

/// Slot `i` is held and is the slot of inode `inum`.
pub open spec fn slot_of(s: Seq<Inode>, inum: u32, i: int) -> bool {
    0 <= i < s.len() && s[i].refs > 0 && s[i].inum == inum
}

/// The table of the inodes that are in use in memory. No two slots that
/// are held are slots of the same inode.
pub struct InodePtrManager {
    pub slots: Vec<Inode>,
}

impl InodePtrManager {
    /// No two slots that are held are slots of the same inode.
    pub open spec fn wf(&self) -> bool {
        forall|i: int, j: int|
            0 <= i < j < self.slots@.len() && (#[trigger] self.slots@[i]).refs > 0 && (
            #[trigger] self.slots@[j]).refs > 0 ==> self.slots@[i].inum != self.slots@[j].inum
    }

    /// The handle is valid.
    pub open spec fn holds(&self, ip: InodePtr) -> bool {
        slot_of(self.slots@, ip.inum, ip.slot as int)
    }

    /// Some slot is the slot of inode `inum`.
    pub open spec fn resident(&self, inum: u32) -> bool {
        table_has(self.slots@, inum)
    }

    /// A handle on inode `inum` can be given out; see `table_can_get`.
    pub open spec fn can_get(&self, inum: u32) -> bool {
        table_can_get(self.slots@, inum)
    }

    /// A table of `NINODES` slots that nobody holds.
    pub fn new() -> (t: InodePtrManager)
        ensures
            t.wf(),
            t.slots@.len() == NINODES,
            forall|i: int| 0 <= i < t.slots@.len() ==> (#[trigger] t.slots@[i]).refs == 0,
    {
        let mut slots: Vec<Inode> = Vec::new();
        let mut i: u32 = 0;
        while i < NINODES
            invariant
                i <= NINODES,
                slots@.len() == i,
                forall|j: int| 0 <= j < i ==> (#[trigger] slots@[j]).refs == 0,
            decreases NINODES - i,
        {
            slots.push(Inode::new());
            i = i + 1;
        }
        InodePtrManager { slots }
    }

    /// The slot of inode `inum`, if it has one.
    pub fn find(&self, inum: u32) -> (r: Option<usize>)
        requires
            self.wf(),
        ensures
            r matches Some(i) ==> slot_of(self.slots@, inum, i as int),
            r is None ==> !self.resident(inum),
            r is Some ==> self.resident(inum),
    {
        let n = self.slots.len();
        let mut i: usize = 0;
        while i < n
            invariant
                i <= n,
                n == self.slots@.len(),
                forall|j: int| 0 <= j < i ==> !slot_of(self.slots@, inum, j),
            decreases n - i,
        {
            if self.slots[i].refs > 0 && self.slots[i].inum == inum {
                assert(slot_of(self.slots@, inum, i as int));
                return Some(i);
            }
            i = i + 1;
        }
        None
    }

    /// The first slot that nobody holds, if there is one.
    pub fn find_free(&self) -> (r: Option<usize>)
        ensures
            r matches Some(i) ==> first_free_slot(self.slots@, i as int),
            r is None ==> forall|i: int| !first_free_slot(self.slots@, i),
    {
        let n = self.slots.len();
        let mut i: usize = 0;
        while i < n
            invariant
                i <= n,
                n == self.slots@.len(),
                forall|j: int| 0 <= j < i ==> (#[trigger] self.slots@[j]).refs > 0,
            decreases n - i,
        {
            if self.slots[i].refs == 0 {
                return Some(i);
            }
            i = i + 1;
        }
        proof {
            assert forall|i: int| !first_free_slot(self.slots@, i) by {
                if first_free_slot(self.slots@, i) {
                    assert(self.slots@[i].refs > 0);
                }
            }
        }
        None
    }

    /// Whether a handle on inode `inum` can be given out.
    pub fn has_room(&self, inum: u32) -> (r: bool)
        requires
            self.wf(),
        ensures
            r == self.can_get(inum),
    {
        match self.find(inum) {
            Some(i) => {
                proof {
                    assert forall|j: int| slot_of(self.slots@, inum, j) implies j == i by {
                        if j < i {
                            assert(self.slots@[j].inum != self.slots@[i as int].inum);
                        } else if i < j {
                            assert(self.slots@[i as int].inum != self.slots@[j].inum);
                        }
                    }
                }
                self.slots[i].refs < u32::MAX
            },
            None => self.find_free().is_some(),
        }
    }

    /// Gives out a handle on inode `inum`. If the inode has a slot, the
    /// slot gets one more handle. Else the first slot that nobody holds
    /// becomes the slot of the inode.
    pub fn get_inode(&mut self, inum: u32) -> (ip: InodePtr)
        requires
            old(self).wf(),
            old(self).can_get(inum),
        ensures
            final(self).wf(),
            final(self).holds(ip),
            ip.inum == inum,
            final(self).slots@.len() == old(self).slots@.len(),
            old(self).resident(inum) ==> slot_of(old(self).slots@, inum, ip.slot as int)
                && final(self).slots@ == old(self).slots@.update(
                ip.slot as int,
                Inode {
                    refs: (old(self).slots@[ip.slot as int].refs + 1) as u32,
                    ..old(self).slots@[ip.slot as int]
                },
            ),
            !old(self).resident(inum) ==> first_free_slot(old(self).slots@, ip.slot as int)
                && final(self).slots@ == old(self).slots@.update(
                ip.slot as int,
                Inode { inum, refs: 1 },
            ),
    {
        match self.find(inum) {
            Some(i) => {
                let cur = self.slots[i];
                self.slots[i] = Inode { refs: cur.refs + 1, ..cur };
                InodePtr { slot: i, inum }
            },
            None => {
                match self.find_free() {
                    Some(i) => {
                        self.slots[i] = Inode { inum, refs: 1 };
                        proof {
                            assert forall|a: int, b: int|
                                0 <= a < b < self.slots@.len() && (#[trigger] self.slots@[a]).refs
                                    > 0 && (#[trigger] self.slots@[b]).refs
                                    > 0 implies self.slots@[a].inum != self.slots@[b].inum by {
                                if a == i {
                                    assert(!slot_of(old(self).slots@, inum, b));
                                } else if b == i {
                                    assert(!slot_of(old(self).slots@, inum, a));
                                } else {
                                    assert(old(self).slots@[a].inum != old(self).slots@[b].inum);
                                }
                            }
                        }
                        InodePtr { slot: i, inum }
                    },
                    None => {
                        InodePtr { slot: 0, inum }
                    },
                }
            },
        }
    }

    /// Gives back a handle. Returns whether it was the last on its inode.
    pub fn put(&mut self, ip: InodePtr) -> (last: bool)
        requires
            old(self).wf(),
            old(self).holds(ip),
        ensures
            final(self).wf(),
            last == (old(self).slots@[ip.slot as int].refs == 1),
            final(self).slots@ == old(self).slots@.update(
                ip.slot as int,
                Inode {
                    refs: (old(self).slots@[ip.slot as int].refs - 1) as u32,
                    ..old(self).slots@[ip.slot as int]
                },
            ),
    {
        let cur = self.slots[ip.slot];
        self.slots[ip.slot] = Inode { refs: cur.refs - 1, ..cur };
        proof {
            assert forall|a: int, b: int|
                0 <= a < b < self.slots@.len() && (#[trigger] self.slots@[a]).refs > 0 && (
                #[trigger] self.slots@[b]).refs > 0 implies self.slots@[a].inum
                != self.slots@[b].inum by {
                assert(old(self).slots@[a].refs > 0 && old(self).slots@[b].refs > 0);
            }
        }
        cur.refs == 1
    }

    /// Whether the handle is valid.
    pub fn is_held(&self, ip: InodePtr) -> (r: bool)
        ensures
            r == self.holds(ip),
    {
        ip.slot < self.slots.len() && self.slots[ip.slot].refs > 0 && self.slots[ip.slot].inum
            == ip.inum
    }
}

/// Some slot of the table is the slot of inode `inum`.
pub open spec fn table_has(s: Seq<Inode>, inum: u32) -> bool {
    exists|i: int| slot_of(s, inum, i)
}

/// A handle on inode `inum` can be given out: the inode has a slot whose
/// handle count is not at its limit, or a slot is free.
pub open spec fn table_can_get(s: Seq<Inode>, inum: u32) -> bool {
    if table_has(s, inum) {
        forall|i: int| slot_of(s, inum, i) ==> s[i].refs < u32::MAX
    } else {
        exists|i: int| first_free_slot(s, i)
    }
}

/// The slot that a handle on inode `inum` gets: the slot of the inode if
/// it has one, and else the first slot that nobody holds.
pub open spec fn table_slot(s: Seq<Inode>, inum: u32) -> int {
    if table_has(s, inum) {
        choose|i: int| slot_of(s, inum, i)
    } else {
        choose|i: int| first_free_slot(s, i)
    }
}

/// The table after a handle on inode `inum` was given out.
pub open spec fn table_get(s: Seq<Inode>, inum: u32) -> Seq<Inode> {
    let i = table_slot(s, inum);
    if table_has(s, inum) {
        s.update(i, Inode { refs: (s[i].refs + 1) as u32, ..s[i] })
    } else {
        s.update(i, Inode { inum, refs: 1 })
    }
}

/// The table after a handle was given back.
pub open spec fn table_put(s: Seq<Inode>, ip: InodePtr) -> Seq<Inode> {
    s.update(ip.slot as int, Inode { refs: (s[ip.slot as int].refs - 1) as u32, ..s[ip.slot as int] })
}

/// The slot that an inode gets is the slot that it has, or the first slot
/// that is free if it has none.
pub proof fn lemma_table_slot(s: Seq<Inode>, inum: u32, i: int)
    requires
        forall|a: int, b: int|
            0 <= a < b < s.len() && (#[trigger] s[a]).refs > 0 && (#[trigger] s[b]).refs > 0
                ==> s[a].inum != s[b].inum,
        slot_of(s, inum, i) || (!table_has(s, inum) && first_free_slot(s, i)),
    ensures
        table_slot(s, inum) == i,
{
    let j = table_slot(s, inum);
    if slot_of(s, inum, i) {
        assert(slot_of(s, inum, j));
        if j < i {
            assert(s[j].inum != s[i].inum);
        } else if i < j {
            assert(s[i].inum != s[j].inum);
        }
    } else {
        assert(first_free_slot(s, j));
        if j < i {
            assert(s[j].refs > 0);
        } else if i < j {
            assert(s[i].refs > 0);
        }
    }
}

/// What asking for a handle on inode `inum` does: fails, and changes
/// nothing, if the volume has no such inode or the table cannot give out a
/// handle; else the table gives one out.
pub open spec fn get_inode_spec(s: Seq<Inode>, sb: SuperBlock, inum: u32) -> (
    Seq<Inode>,
    Result<InodePtr, FsError>,
) {
    if inum >= sb.ninodes {
        (s, Err(FsError::Corrupt))
    } else if !table_can_get(s, inum) {
        (s, Err(FsError::TableFull))
    } else {
        (table_get(s, inum), Ok(InodePtr { slot: table_slot(s, inum) as usize, inum }))
    }
}

/// Gives out a handle on inode `inum`; see `get_inode_spec`.
pub fn get_inode<D: BlockDevice>(fs: &mut Filesystem<D>, inum: u32) -> (r: Result<InodePtr, FsError>)
    requires
        old(fs).inv(),
    ensures
        final(fs).inv(),
        final(fs).vol == old(fs).vol,
        final(fs).files == old(fs).files,
        (final(fs).inodes.slots@, r) == get_inode_spec(old(fs).inodes.slots@, old(fs).vol.sb, inum),
        r matches Ok(ip) ==> final(fs).inodes.holds(ip) && ip.inum == inum,
{
    if inum >= fs.vol.sb.ninodes {
        return Err(FsError::Corrupt);
    }
    if !fs.inodes.has_room(inum) {
        return Err(FsError::TableFull);
    }
    let ip = fs.inodes.get_inode(inum);
    proof {
        lemma_table_slot(old(fs).inodes.slots@, inum, ip.slot as int);
    }
    Ok(ip)
}

/// An inode that is free on disk: its type is 0.
pub open spec fn is_free_inode(img: Image, sb: SuperBlock, i: int) -> bool {
    ROOTINO <= i < sb.ninodes && dinode_at(img, sb, i).ftype == 0
}

/// Inode `i` is the first inode, from the root's on, that is free on disk.
pub open spec fn is_first_free_inode(img: Image, sb: SuperBlock, i: int) -> bool {
    &&& is_free_inode(img, sb, i)
    &&& forall|j: int| ROOTINO <= j < i ==> !is_free_inode(img, sb, j)
}

/// The first inode that is free on disk, if there is one.
pub open spec fn free_inode(img: Image, sb: SuperBlock) -> Option<u32> {
    if exists|i: int| is_first_free_inode(img, sb, i) {
        Some((choose|i: int| is_first_free_inode(img, sb, i)) as u32)
    } else {
        None
    }
}

/// The inode of type `ftype` that an allocation writes: of that type, and
/// zero otherwise.
pub open spec fn blank_dinode(ftype: FileType) -> DiskInodeView {
    DiskInodeView { ftype: ftype.code(), ..zero_dinode() }
}

/// The inode of type `ftype` that a new file or directory starts as: named
/// once, with no contents.
pub open spec fn fresh_dinode(ftype: FileType) -> DiskInodeView {
    DiskInodeView { ftype: ftype.code(), nlink: 1, ..zero_dinode() }
}

/// The first inode that is free on disk; see `free_inode`.
pub fn find_free_inode<D: BlockDevice>(vol: &mut Volume<D>) -> (r: Option<u32>)
    requires
        old(vol).inv(),
    ensures
        final(vol).inv(),
        final(vol).stays(old(vol)),
        final(vol).state() == old(vol).state(),
        r == free_inode(old(vol).image(), old(vol).sb),
        r matches Some(i) ==> ROOTINO <= i < old(vol).sb.ninodes,
{
    let n = vol.sb.ninodes;
    let ghost img = vol.image();
    let ghost sb = vol.sb;
    let mut i: u32 = ROOTINO;
    proof {
        vol.lemma_stays_refl();
    }
    while i < n
        invariant
            ROOTINO <= i <= n,
            n == sb.ninodes,
            img == old(vol).image(),
            sb == old(vol).sb,
            vol.inv(),
            vol.stays(old(vol)),
            vol.state() == old(vol).state(),
            forall|j: int| ROOTINO <= j < i ==> !is_free_inode(img, sb, j),
        decreases n - i,
    {
        let ghost v1 = *vol;
        let d = read_dinode(vol, i);
        proof {
            vol.lemma_stays_trans(&v1, old(vol));
        }
        if d.ftype == 0 {
            proof {
                assert(is_first_free_inode(img, sb, i as int));
                let c = choose|c: int| is_first_free_inode(img, sb, c);
                if c < i {
                    assert(!is_free_inode(img, sb, c));
                } else if i < c {
                    assert(!is_free_inode(img, sb, i as int));
                }
            }
            return Some(i);
        }
        i = i + 1;
    }
    proof {
        if exists|c: int| is_first_free_inode(img, sb, c) {
            let c = choose|c: int| is_first_free_inode(img, sb, c);
            assert(!is_free_inode(img, sb, c));
        }
    }
    None
}

/// What allocating an inode of type `ftype` does: the first inode that is
/// free on disk is written with that type, and zero otherwise, as part of
/// the open transaction, and a handle on it is given out. No entry names
/// the inode yet, so that it is freed when the handle is given back. Nothing changes if no
/// inode is free, if the table cannot give out a handle, or if the
/// transaction has no room.
pub open spec fn inode_alloc_spec(st: VolState, s: Seq<Inode>, sb: SuperBlock, ftype: FileType) -> (
    VolState,
    Seq<Inode>,
    Result<InodePtr, FsError>,
) {
    match free_inode(st.image, sb) {
        None => (st, s, Err(FsError::NoInodes)),
        Some(i) => if !table_can_get(s, i) {
            (st, s, Err(FsError::TableFull))
        } else {
            let (s1, r1) = bwrite_spec(
                st,
                inode_block(sb, i as int) as u32,
                dinode_block_with(st.image, sb, i as int, blank_dinode(ftype)),
            );
            match r1 {
                Err(e) => (s1, s, Err(e)),
                Ok(_) => (
                    s1,
                    table_get(s, i),
                    Ok(InodePtr { slot: table_slot(s, i) as usize, inum: i }),
                ),
            }
        },
    }
}

/// The inode of type `ftype` that an allocation writes.
pub fn blank_inode(ftype: FileType) -> (d: DiskInode)
    ensures
        d@ == blank_dinode(ftype),
{
    let mut d = DiskInode::default();
    d.ftype = ftype.to_u16();
    d
}

/// The new inode of type `ftype`.
pub fn new_dinode(ftype: FileType) -> (d: DiskInode)
    ensures
        d@ == fresh_dinode(ftype),
{
    let mut d = DiskInode::default();
    d.ftype = ftype.to_u16();
    d.nlink = 1;
    d
}

impl InodePtrManager {
    /// Allocates an inode of type `ftype` on the volume and gives out a
    /// handle on it; see `inode_alloc_spec`.
    pub fn inode_alloc<D: BlockDevice>(&mut self, vol: &mut Volume<D>, ftype: FileType) -> (r:
        Result<InodePtr, FsError>)
        requires
            old(vol).inv(),
            old(vol).in_txn(),
            old(self).wf(),
        ensures
            final(vol).inv(),
            final(vol).stays(old(vol)),
            final(self).wf(),
            final(self).slots@.len() == old(self).slots@.len(),
            (final(vol).state(), final(self).slots@, r) == inode_alloc_spec(
                old(vol).state(),
                old(self).slots@,
                old(vol).sb,
                ftype,
            ),
            r matches Ok(ip) ==> final(self).holds(ip) && ip.inum < old(vol).sb.ninodes,
            forall|i: int|
                0 <= i < final(self).slots@.len() && (#[trigger] final(self).slots@[i]).refs > 0
                    ==> (old(self).slots@[i].refs > 0 && final(self).slots@[i].inum == old(
                    self,
                ).slots@[i].inum) || final(self).slots@[i].inum < old(vol).sb.ninodes,
    {
        let i = match find_free_inode(vol) {
            None => {
                return Err(FsError::NoInodes);
            },
            Some(i) => i,
        };
        if !self.has_room(i) {
            return Err(FsError::TableFull);
        }
        let d = blank_inode(ftype);
        let ghost v1 = *vol;
        match write_dinode(vol, i, &d) {
            Err(e) => {
                proof {
                    vol.lemma_stays_trans(&v1, old(vol));
                }
                return Err(e);
            },
            Ok(()) => {},
        }
        proof {
            vol.lemma_stays_trans(&v1, old(vol));
        }
        let ip = self.get_inode(i);
        proof {
            lemma_table_slot(old(self).slots@, i, ip.slot as int);
        }
        Ok(ip)
    }
}

/// Allocates an inode of type `ftype`; see `inode_alloc_spec`.
pub fn inode_alloc<D: BlockDevice>(fs: &mut Filesystem<D>, ftype: FileType) -> (r: Result<
    InodePtr,
    FsError,
>)
    requires
        old(fs).inv(),
        old(fs).vol.in_txn(),
    ensures
        final(fs).inv(),
        final(fs).vol.stays(&old(fs).vol),
        final(fs).files == old(fs).files,
        (final(fs).vol.state(), final(fs).inodes.slots@, r) == inode_alloc_spec(
            old(fs).vol.state(),
            old(fs).inodes.slots@,
            old(fs).vol.sb,
            ftype,
        ),
        r matches Ok(ip) ==> final(fs).inodes.holds(ip),
{
    fs.inodes.inode_alloc(&mut fs.vol, ftype)
}

/// The inode marked as free, with no contents.
pub open spec fn freed_dinode(d: DiskInodeView) -> DiskInodeView {
    DiskInodeView { ftype: 0, size: 0, ..d }
}

/// What freeing inode `inum`, which holds `d`, does: its blocks are freed
/// and it is marked as free on disk, all as part of the open transaction.
/// Where the transaction has no room for the inode's block, nothing
/// changes; where a block cannot be freed, the inode stays as it is.
pub open spec fn drop_inode_spec(st: VolState, sb: SuperBlock, inum: u32, d: DiskInodeView) -> (
    VolState,
    Result<(), FsError>,
) {
    let (s0, r0) = reserve_spec(st, inode_block(sb, inum as int) as u32);
    match r0 {
        Err(e) => (s0, Err(e)),
        Ok(_) => {
            let (s1, d1, r1) = truncate_spec(s0, sb, d);
            match r1 {
                Err(e) => (s1, Err(e)),
                Ok(_) => bwrite_spec(
                    s1,
                    inode_block(sb, inum as int) as u32,
                    dinode_block_with(s1.image, sb, inum as int, freed_dinode(d1)),
                ),
            }
        },
    }
}

/// Frees inode `inum`, which holds `d`; see `drop_inode_spec`.
pub fn drop_inode<D: BlockDevice>(vol: &mut Volume<D>, inum: u32, d: DiskInode) -> (r: Result<
    (),
    FsError,
>)
    requires
        old(vol).inv(),
        old(vol).in_txn(),
        inum < old(vol).sb.ninodes,
    ensures
        final(vol).inv(),
        final(vol).stays(old(vol)),
        (final(vol).state(), r) == drop_inode_spec(old(vol).state(), old(vol).sb, inum, d@),
{
    proof {
        lemma_inode_block_range(vol.sb, inum as int);
    }
    let (blk, _off) = addr_of_inode(&vol.sb, inum);
    match vol.reserve(blk) {
        Err(e) => {
            return Err(e);
        },
        Ok(()) => {},
    }
    let ghost v1 = *vol;
    let mut d = d;
    match Inode::truncate(vol, &mut d) {
        Err(e) => {
            proof {
                vol.lemma_stays_trans(&v1, old(vol));
            }
            return Err(e);
        },
        Ok(()) => {},
    }
    let ghost v2 = *vol;
    d.ftype = 0;
    d.size = 0;
    let r = write_dinode(vol, inum, &d);
    proof {
        vol.lemma_stays_trans(&v2, &v1);
        vol.lemma_stays_trans(&v1, old(vol));
    }
    r
}

/// What giving back a handle does. If it was the last handle on an inode
/// that no directory entry names any more, the inode is freed; see
/// `drop_inode_spec`.
pub open spec fn release_spec(st: VolState, s: Seq<Inode>, sb: SuperBlock, ip: InodePtr) -> (
    VolState,
    Seq<Inode>,
    Result<(), FsError>,
) {
    let s1 = table_put(s, ip);
    let d = dinode_at(st.image, sb, ip.inum as int);
    if s[ip.slot as int].refs != 1 || d.nlink != 0 || d.ftype == 0 {
        (st, s1, Ok(()))
    } else {
        let (s2, r2) = drop_inode_spec(st, sb, ip.inum, d);
        (s2, s1, r2)
    }
}

/// Gives back a handle; see `release_spec`. The handle is not valid
/// afterwards.
pub fn release<D: BlockDevice>(fs: &mut Filesystem<D>, ip: InodePtr) -> (r: Result<(), FsError>)
    requires
        old(fs).inv(),
        old(fs).vol.in_txn(),
        old(fs).inodes.holds(ip),
    ensures
        final(fs).inv(),
        final(fs).vol.stays(&old(fs).vol),
        final(fs).files == old(fs).files,
        (final(fs).vol.state(), final(fs).inodes.slots@, r) == release_spec(
            old(fs).vol.state(),
            old(fs).inodes.slots@,
            old(fs).vol.sb,
            ip,
        ),
{
    let ghost v0 = fs.vol;
    let last = fs.inodes.put(ip);
    proof {
        fs.vol.lemma_stays_refl();
        assert forall|i: int|
            0 <= i < fs.inodes.slots@.len() && (#[trigger] fs.inodes.slots@[i]).refs
                > 0 implies fs.inodes.slots@[i].inum < fs.vol.sb.ninodes by {
            assert(old(fs).inodes.slots@[i].refs > 0);
        }
    }
    if !last {
        return Ok(());
    }
    let d = read_dinode(&mut fs.vol, ip.inum);
    if d.nlink != 0 || d.ftype == 0 {
        return Ok(());
    }
    let ghost v1 = fs.vol;
    let r = drop_inode(&mut fs.vol, ip.inum, d);
    proof {
        fs.vol.lemma_stays_trans(&v1, &v0);
    }
    r
}

impl InodePtr {
    /// Calls `f` on the on-disk inode.
    pub fn read_disk_inode<D: BlockDevice, V, F: FnOnce(&DiskInode) -> V>(
        &self,
        fs: &mut Filesystem<D>,
        f: F,
    ) -> (v: V)
        requires
            old(fs).inv(),
            old(fs).inodes.holds(*self),
            forall|d: DiskInode|
                d@ == dinode_at(old(fs).vol.image(), old(fs).vol.sb, self.inum as int)
                    ==> call_requires(f, (&d,)),
        ensures
            final(fs).inv(),
            final(fs).vol.stays(&old(fs).vol),
            final(fs).vol.state() == old(fs).vol.state(),
            final(fs).inodes == old(fs).inodes,
            final(fs).files == old(fs).files,
            exists|d: DiskInode|
                d@ == dinode_at(old(fs).vol.image(), old(fs).vol.sb, self.inum as int)
                    && call_ensures(f, (&d,), v),
    {
        let d = read_dinode(&mut fs.vol, self.inum);
        f(&d)
    }

    /// Calls `f` on the on-disk inode and writes what `f` left in it back,
    /// as part of the open transaction. Fails, and changes nothing, if the
    /// transaction has no room for the inode's block.
    pub fn modify_disk_inode<D: BlockDevice, V, F: FnOnce(&mut DiskInode) -> V>(
        &self,
        fs: &mut Filesystem<D>,
        f: F,
    ) -> (r: Result<V, FsError>)
        requires
            old(fs).inv(),
            old(fs).vol.in_txn(),
            old(fs).inodes.holds(*self),
            forall|d: &mut DiskInode|
                (*d)@ == dinode_at(old(fs).vol.image(), old(fs).vol.sb, self.inum as int)
                    ==> call_requires(f, (d,)),
        ensures
            final(fs).inv(),
            final(fs).vol.stays(&old(fs).vol),
            final(fs).inodes == old(fs).inodes,
            final(fs).files == old(fs).files,
            r is Err <==> !old(fs).vol.logged(inode_block(old(fs).vol.sb, self.inum as int) as u32)
                && old(fs).vol.room() <= 0,
            r matches Err(e) ==> e == FsError::LogFull && final(fs).vol.state() == old(
                fs,
            ).vol.state(),
            r matches Ok(v) ==> exists|d: &mut DiskInode|
                (*d)@ == dinode_at(old(fs).vol.image(), old(fs).vol.sb, self.inum as int)
                    && call_ensures(f, (d,), v) && DiskInode::valid((*final(d))@) && bwrite_spec(
                    old(fs).vol.state(),
                    inode_block(old(fs).vol.sb, self.inum as int) as u32,
                    dinode_block_with(
                        old(fs).vol.image(),
                        old(fs).vol.sb,
                        self.inum as int,
                        (*final(d))@,
                    ),
                ) == (final(fs).vol.state(), Ok::<(), FsError>(())),
    {
        let ghost v0 = fs.vol;
        let mut d = read_dinode(&mut fs.vol, self.inum);
        let ghost v1 = fs.vol;
        let v = f(&mut d);
        let w = write_dinode(&mut fs.vol, self.inum, &d);
        proof {
            fs.vol.lemma_stays_trans(&v1, &v0);
        }
        match w {
            Err(e) => Err(e),
            Ok(()) => Ok(v),
        }
    }
}

/// What reading `n` bytes at offset `off` of inode `inum` gives; see
/// `iread_spec`.
pub open spec fn rinode_spec(
    img: Image,
    sb: SuperBlock,
    inum: u32,
    dst: Seq<u8>,
    off: int,
    n: int,
) -> (Seq<u8>, Result<usize, FsError>) {
    iread_spec(img, sb, dinode_at(img, sb, inum as int), dst, off, n)
}

/// What writing to the contents of inode `inum` does to the volume: the
/// operation works on the inode as the volume holds it, after the inode's
/// block was reserved, and the inode that it leaves is written back; see
/// `iwrite_spec`.
pub open spec fn winode_spec(
    st: VolState,
    sb: SuperBlock,
    inum: u32,
    src: Seq<u8>,
    off: int,
    n: int,
) -> (VolState, Result<usize, FsError>) {
    let blk = inode_block(sb, inum as int) as u32;
    let (s0, r0) = reserve_spec(st, blk);
    match r0 {
        Err(e) => (s0, Err(e)),
        Ok(_) => {
            let d = dinode_at(s0.image, sb, inum as int);
            let (s1, d1, r1) = iwrite_spec(s0, sb, d, src, off, n);
            let (s2, r2) = bwrite_spec(s1, blk, dinode_block_with(s1.image, sb, inum as int, d1));
            match r2 {
                Err(e) => (s2, Err(e)),
                Ok(_) => (s2, r1),
            }
        },
    }
}

/// Reads up to `n` bytes at offset `off` of the inode's contents into
/// `dst` and returns the number of bytes read; see `rinode_spec`. Nothing
/// on the volume changes, and no transaction has to be open.
pub fn rinode<D: BlockDevice>(
    fs: &mut Filesystem<D>,
    ip: &InodePtr,
    dst: &mut [u8],
    off: usize,
    n: usize,
) -> (r: Result<usize, FsError>)
    requires
        old(fs).inv(),
        old(fs).inodes.holds(*ip),
        n <= old(dst)@.len(),
    ensures
        final(fs).inv(),
        final(fs).vol.stays(&old(fs).vol),
        final(fs).vol.state() == old(fs).vol.state(),
        final(fs).inodes == old(fs).inodes,
        final(fs).files == old(fs).files,
        final(dst)@.len() == old(dst)@.len(),
        (final(dst)@, r) == rinode_spec(
            old(fs).vol.image(),
            old(fs).vol.sb,
            ip.inum,
            old(dst)@,
            off as int,
            n as int,
        ),
{
    let ghost v0 = fs.vol;
    let d = read_dinode(&mut fs.vol, ip.inum);
    let ghost v1 = fs.vol;
    let r = iread(&mut fs.vol, &d, dst, off, n);
    proof {
        fs.vol.lemma_stays_trans(&v1, &v0);
    }
    r
}

/// Writes the first `n` bytes of `src` at offset `off` of the inode's
/// contents and returns the number of bytes written; see `winode_spec`.
pub fn winode<D: BlockDevice>(
    fs: &mut Filesystem<D>,
    ip: &InodePtr,
    src: &[u8],
    off: usize,
    n: usize,
) -> (r: Result<usize, FsError>)
    requires
        old(fs).inv(),
        old(fs).vol.in_txn(),
        old(fs).inodes.holds(*ip),
        n <= src@.len(),
    ensures
        final(fs).inv(),
        final(fs).vol.stays(&old(fs).vol),
        final(fs).inodes == old(fs).inodes,
        final(fs).files == old(fs).files,
        (final(fs).vol.state(), r) == winode_spec(
            old(fs).vol.state(),
            old(fs).vol.sb,
            ip.inum,
            src@,
            off as int,
            n as int,
        ),
{
    let ghost v0 = fs.vol;
    proof {
        lemma_inode_block_range(fs.vol.sb, ip.inum as int);
    }
    let (blk, _off) = addr_of_inode(&fs.vol.sb, ip.inum);
    match fs.vol.reserve(blk) {
        Err(e) => {
            return Err(e);
        },
        Ok(()) => {},
    }
    let ghost v1 = fs.vol;
    let mut d = read_dinode(&mut fs.vol, ip.inum);
    let ghost v2 = fs.vol;
    let r = iwrite(&mut fs.vol, &mut d, src, off, n);
    let ghost v3 = fs.vol;
    let w = write_dinode(&mut fs.vol, ip.inum, &d);
    proof {
        fs.vol.lemma_stays_trans(&v3, &v2);
        fs.vol.lemma_stays_trans(&v2, &v1);
        fs.vol.lemma_stays_trans(&v1, &v0);
    }
    match w {
        Err(e) => Err(e),
        Ok(()) => r,
    }
}

/// What looking the name up in a directory and asking for a handle on what
/// it names does.
pub open spec fn find_child_spec(
    st: VolState,
    s: Seq<Inode>,
    sb: SuperBlock,
    d: DiskInodeView,
    name: Seq<u8>,
) -> (Seq<Inode>, Result<InodePtr, FsError>) {
    match dir_scan(st.image, sb, d, name, 0) {
        Err(e) => (s, Err(e)),
        Ok(None) => (s, Err(FsError::NotFound)),
        Ok(Some((inum, _))) => get_inode_spec(s, sb, inum),
    }
}

/// A handle on the inode that the directory with inode `diskinode` has
/// under the name `name`; see `find_child_spec`.
pub fn find_child<D: BlockDevice>(fs: &mut Filesystem<D>, diskinode: DiskInode, name: &str) -> (r:
    Result<InodePtr, FsError>)
    requires
        old(fs).inv(),
    ensures
        final(fs).inv(),
        final(fs).vol.stays(&old(fs).vol),
        final(fs).vol.state() == old(fs).vol.state(),
        final(fs).files == old(fs).files,
        (final(fs).inodes.slots@, r) == find_child_spec(
            old(fs).vol.state(),
            old(fs).inodes.slots@,
            old(fs).vol.sb,
            diskinode@,
            name.spec_bytes(),
        ),
        r matches Ok(ip) ==> final(fs).inodes.holds(ip),
{
    match dir_lookup(&mut fs.vol, &diskinode, name.as_bytes()) {
        Err(e) => Err(e),
        Ok(None) => Err(FsError::NotFound),
        Ok(Some(hit)) => get_inode(fs, hit.0),
    }
}

/// The inode that the path names; see `resolve_spec`.
pub fn resolve<D: BlockDevice>(vol: &mut Volume<D>, path: &[u8]) -> (r: Result<u32, FsError>)
    requires
        old(vol).inv(),
    ensures
        final(vol).inv(),
        final(vol).stays(old(vol)),
        final(vol).state() == old(vol).state(),
        r == resolve_spec(old(vol).image(), old(vol).sb, path@),
        r matches Ok(inum) ==> inum < old(vol).sb.ninodes,
{
    if path.len() == 0 || path[0] != SEP {
        proof {
            vol.lemma_stays_refl();
        }
        return Err(FsError::NotFound);
    }
    let names = components(path);
    proof {
        assert(names_view(names@).take(names@.len() as int) =~= names_of(path@));
    }
    walk_names(vol, &names, names.len())
}

/// The directory that holds what the path names, and the last name of the
/// path; see `resolve_parent_spec`.
pub fn resolve_parent<D: BlockDevice>(vol: &mut Volume<D>, path: &[u8]) -> (r: Result<
    (u32, Vec<u8>),
    FsError,
>)
    requires
        old(vol).inv(),
    ensures
        final(vol).inv(),
        final(vol).stays(old(vol)),
        final(vol).state() == old(vol).state(),
        r matches Ok(p) ==> resolve_parent_spec(old(vol).image(), old(vol).sb, path@) == Ok::<
            (u32, Seq<u8>),
            FsError,
        >((p.0, p.1@)) && p.0 < old(vol).sb.ninodes,
        r matches Err(e) ==> resolve_parent_spec(old(vol).image(), old(vol).sb, path@) == Err::<
            (u32, Seq<u8>),
            FsError,
        >(e),
{
    proof {
        vol.lemma_stays_refl();
    }
    if path.len() == 0 || path[0] != SEP {
        return Err(FsError::NotFound);
    }
    let mut names = components(path);
    if names.len() == 0 {
        return Err(FsError::NotFound);
    }
    let upto = names.len() - 1;
    proof {
        assert(names_view(names@).take(upto as int) =~= names_of(path@).drop_last());
        assert(names_view(names@).last() == names@.last()@);
    }
    match walk_names(vol, &names, upto) {
        Err(e) => Err(e),
        Ok(p) => {
            let last = names.pop().unwrap();
            Ok((p, last))
        },
    }
}

/// What asking for a handle on what the path names does.
pub open spec fn find_inode_spec(st: VolState, s: Seq<Inode>, sb: SuperBlock, path: Seq<u8>) -> (
    Seq<Inode>,
    Result<InodePtr, FsError>,
) {
    match resolve_spec(st.image, sb, path) {
        Err(e) => (s, Err(e)),
        Ok(inum) => get_inode_spec(s, sb, inum),
    }
}

/// A handle on the inode that the path names; see `resolve_spec`.
pub fn find_inode<D: BlockDevice>(fs: &mut Filesystem<D>, path: &str) -> (r: Result<InodePtr, FsError>)
    requires
        old(fs).inv(),
    ensures
        final(fs).inv(),
        final(fs).vol.stays(&old(fs).vol),
        final(fs).vol.state() == old(fs).vol.state(),
        final(fs).files == old(fs).files,
        (final(fs).inodes.slots@, r) == find_inode_spec(
            old(fs).vol.state(),
            old(fs).inodes.slots@,
            old(fs).vol.sb,
            path.spec_bytes(),
        ),
        r matches Ok(ip) ==> final(fs).inodes.holds(ip),
{
    match resolve(&mut fs.vol, path.as_bytes()) {
        Err(e) => Err(e),
        Ok(inum) => get_inode(fs, inum),
    }
}

/// What asking for a handle on the directory that holds what the path
/// names does.
pub open spec fn find_parent_inode_spec(
    st: VolState,
    s: Seq<Inode>,
    sb: SuperBlock,
    path: Seq<u8>,
) -> (Seq<Inode>, Result<InodePtr, FsError>) {
    match resolve_parent_spec(st.image, sb, path) {
        Err(e) => (s, Err(e)),
        Ok((inum, _)) => get_inode_spec(s, sb, inum),
    }
}

/// A handle on the directory that holds what the path names; see
/// `resolve_parent_spec`.
pub fn find_parent_inode<D: BlockDevice>(fs: &mut Filesystem<D>, path: &str) -> (r: Result<
    InodePtr,
    FsError,
>)
    requires
        old(fs).inv(),
    ensures
        final(fs).inv(),
        final(fs).vol.stays(&old(fs).vol),
        final(fs).vol.state() == old(fs).vol.state(),
        final(fs).files == old(fs).files,
        (final(fs).inodes.slots@, r) == find_parent_inode_spec(
            old(fs).vol.state(),
            old(fs).inodes.slots@,
            old(fs).vol.sb,
            path.spec_bytes(),
        ),
        r matches Ok(ip) ==> final(fs).inodes.holds(ip),
{
    match resolve_parent(&mut fs.vol, path.as_bytes()) {
        Err(e) => Err(e),
        Ok(p) => get_inode(fs, p.0),
    }
}

/// What entering a name in the directory with inode number `dnum` does;
/// see `winode_spec` and `dir_link_spec`.
pub open spec fn dirlink_spec(st: VolState, sb: SuperBlock, dnum: u32, name: Seq<u8>, inum: u32) -> (
    VolState,
    Result<(), FsError>,
) {
    let blk = inode_block(sb, dnum as int) as u32;
    let (s0, r0) = reserve_spec(st, blk);
    match r0 {
        Err(e) => (s0, Err(e)),
        Ok(_) => {
            let d = dinode_at(s0.image, sb, dnum as int);
            let (s1, d1, r1) = dir_link_spec(s0, sb, d, name, inum);
            let (s2, r2) = bwrite_spec(s1, blk, dinode_block_with(s1.image, sb, dnum as int, d1));
            match r2 {
                Err(e) => (s2, Err(e)),
                Ok(_) => (s2, r1),
            }
        },
    }
}

/// What removing a name from the directory with inode number `dnum` does;
/// see `winode_spec` and `dir_unlink_spec`.
pub open spec fn dirunlink_spec(st: VolState, sb: SuperBlock, dnum: u32, name: Seq<u8>) -> (
    VolState,
    Result<u32, FsError>,
) {
    let blk = inode_block(sb, dnum as int) as u32;
    let (s0, r0) = reserve_spec(st, blk);
    match r0 {
        Err(e) => (s0, Err(e)),
        Ok(_) => {
            let d = dinode_at(s0.image, sb, dnum as int);
            let (s1, d1, r1) = dir_unlink_spec(s0, sb, d, name);
            let (s2, r2) = bwrite_spec(s1, blk, dinode_block_with(s1.image, sb, dnum as int, d1));
            match r2 {
                Err(e) => (s2, Err(e)),
                Ok(_) => (s2, r1),
            }
        },
    }
}

/// Enters the name `name` for inode `inum` in the directory `dp`; see
/// `dirlink_spec`.
pub fn dirlink<D: BlockDevice>(fs: &mut Filesystem<D>, dp: &InodePtr, name: &str, inum: u32) -> (r:
    Result<(), FsError>)
    requires
        old(fs).inv(),
        old(fs).vol.in_txn(),
        old(fs).inodes.holds(*dp),
    ensures
        final(fs).inv(),
        final(fs).vol.stays(&old(fs).vol),
        final(fs).inodes == old(fs).inodes,
        final(fs).files == old(fs).files,
        (final(fs).vol.state(), r) == dirlink_spec(
            old(fs).vol.state(),
            old(fs).vol.sb,
            dp.inum,
            name.spec_bytes(),
            inum,
        ),
{
    let ghost v0 = fs.vol;
    proof {
        lemma_inode_block_range(fs.vol.sb, dp.inum as int);
    }
    let (blk, _off) = addr_of_inode(&fs.vol.sb, dp.inum);
    match fs.vol.reserve(blk) {
        Err(e) => {
            return Err(e);
        },
        Ok(()) => {},
    }
    let ghost v1 = fs.vol;
    let mut d = read_dinode(&mut fs.vol, dp.inum);
    let ghost v2 = fs.vol;
    let r = dir_link(&mut fs.vol, &mut d, name.as_bytes(), inum);
    let ghost v3 = fs.vol;
    let w = write_dinode(&mut fs.vol, dp.inum, &d);
    proof {
        fs.vol.lemma_stays_trans(&v3, &v2);
        fs.vol.lemma_stays_trans(&v2, &v1);
        fs.vol.lemma_stays_trans(&v1, &v0);
    }
    match w {
        Err(e) => Err(e),
        Ok(()) => r,
    }
}

/// Removes the name `name` from the directory `dp` and returns the number
/// of the inode that it named; see `dirunlink_spec`.
pub fn dirunlink<D: BlockDevice>(fs: &mut Filesystem<D>, dp: &InodePtr, name: &str) -> (r: Result<
    u32,
    FsError,
>)
    requires
        old(fs).inv(),
        old(fs).vol.in_txn(),
        old(fs).inodes.holds(*dp),
    ensures
        final(fs).inv(),
        final(fs).vol.stays(&old(fs).vol),
        final(fs).inodes == old(fs).inodes,
        final(fs).files == old(fs).files,
        (final(fs).vol.state(), r) == dirunlink_spec(
            old(fs).vol.state(),
            old(fs).vol.sb,
            dp.inum,
            name.spec_bytes(),
        ),
{
    let ghost v0 = fs.vol;
    proof {
        lemma_inode_block_range(fs.vol.sb, dp.inum as int);
    }
    let (blk, _off) = addr_of_inode(&fs.vol.sb, dp.inum);
    match fs.vol.reserve(blk) {
        Err(e) => {
            return Err(e);
        },
        Ok(()) => {},
    }
    let ghost v1 = fs.vol;
    let mut d = read_dinode(&mut fs.vol, dp.inum);
    let ghost v2 = fs.vol;
    let r = dir_unlink(&mut fs.vol, &mut d, name.as_bytes());
    let ghost v3 = fs.vol;
    let w = write_dinode(&mut fs.vol, dp.inum, &d);
    proof {
        fs.vol.lemma_stays_trans(&v3, &v2);
        fs.vol.lemma_stays_trans(&v2, &v1);
        fs.vol.lemma_stays_trans(&v1, &v0);
    }
    match w {
        Err(e) => Err(e),
        Ok(()) => r,
    }
}

/// The name `.`.
pub open spec fn dot_name() -> Seq<u8> {
    seq![DOT]
}

/// The name `..`.
pub open spec fn dotdot_name() -> Seq<u8> {
    seq![DOT, DOT]
}

/// What giving a new inode of type `ftype` its first entries does: a
/// directory gets `.` for itself and `..` for its parent, a file gets
/// nothing.
pub open spec fn first_entries_spec(
    st: VolState,
    sb: SuperBlock,
    ftype: FileType,
    inum: u32,
    parent: u32,
) -> (VolState, DiskInodeView, Result<(), FsError>) {
    let d0 = fresh_dinode(ftype);
    if ftype == FileType::Dir {
        let (s1, d1, r1) = dir_link_spec(st, sb, d0, dot_name(), inum);
        match r1 {
            Err(e) => (s1, d1, Err(e)),
            Ok(_) => dir_link_spec(s1, sb, d1, dotdot_name(), parent),
        }
    } else {
        (st, d0, Ok(()))
    }
}

/// The inode with one more directory entry that names it.
pub open spec fn linked_once_more(d: DiskInodeView) -> DiskInodeView {
    DiskInodeView {
        nlink: if d.nlink < 0xffff {
            (d.nlink + 1) as u16
        } else {
            d.nlink
        },
        ..d
    }
}

/// What taking a new inode back does: if the volume holds inode `i` as in
/// use, the inode is freed with what it holds; see `drop_inode_spec`.
pub open spec fn undo_spec(st: VolState, sb: SuperBlock, i: u32) -> VolState {
    let cd = dinode_at(st.image, sb, i as int);
    if cd.ftype != 0 {
        drop_inode_spec(st, sb, i, cd).0
    } else {
        st
    }
}

/// What entering the new inode `i`, which has been written, in the
/// directory `pnum` under the name `name` does. The entry is made in the
/// parent as the volume holds it, which has to be a directory; the parent
/// of a directory is named by one more entry; the parent is written.
/// Where the entry cannot be made, the new inode is taken back.
pub open spec fn enter_spec(
    st: VolState,
    sb: SuperBlock,
    pnum: u32,
    name: Seq<u8>,
    ftype: FileType,
    i: u32,
) -> (VolState, Result<(), FsError>) {
    let pd = dinode_at(st.image, sb, pnum as int);
    if pd.ftype != 2 {
        (undo_spec(st, sb, i), Err(FsError::NotADirectory))
    } else {
        let (s3, pd3, r3) = dir_link_spec(st, sb, pd, name, i);
        let pd4 = if r3 is Ok && ftype == FileType::Dir {
            linked_once_more(pd3)
        } else {
            pd3
        };
        let (s4, r4) = bwrite_spec(
            s3,
            inode_block(sb, pnum as int) as u32,
            dinode_block_with(s3.image, sb, pnum as int, pd4),
        );
        match r3 {
            Err(e) => (undo_spec(s4, sb, i), Err(e)),
            Ok(_) => (s4, Ok(())),
        }
    }
}

/// What making a new inode of type `ftype` under the name `name` in the
/// directory `pnum`, whose inode is `pd`, does. The first inode that is
/// free on disk is taken. A directory gets its entries `.` and `..`; the
/// new inode is written; the name is entered in the parent, see
/// `enter_spec`; a handle on the new inode is given out. Where an entry
/// cannot be made, the new inode is freed again with what it got.
pub open spec fn make_spec(
    st: VolState,
    s: Seq<Inode>,
    sb: SuperBlock,
    pnum: u32,
    pd: DiskInodeView,
    name: Seq<u8>,
    ftype: FileType,
) -> (VolState, Seq<Inode>, Result<InodePtr, FsError>) {
    if name.len() > 28 {
        (st, s, Err(FsError::NameTooLong))
    } else if ftype == FileType::Dir && pd.nlink == 0xffff {
        (st, s, Err(FsError::TooManyLinks))
    } else {
        match free_inode(st.image, sb) {
            None => (st, s, Err(FsError::NoInodes)),
            Some(i) => if !table_can_get(s, i) {
                (st, s, Err(FsError::TableFull))
            } else {
                let (s0, r0) = reserve_spec(st, inode_block(sb, pnum as int) as u32);
                match r0 {
                    Err(e) => (s0, s, Err(e)),
                    Ok(_) => {
                        let (s1, r1) = reserve_spec(s0, inode_block(sb, i as int) as u32);
                        match r1 {
                            Err(e) => (s1, s, Err(e)),
                            Ok(_) => {
                                let (s2, d2, r2) = first_entries_spec(s1, sb, ftype, i, pnum);
                                let (s3, r3) = bwrite_spec(
                                    s2,
                                    inode_block(sb, i as int) as u32,
                                    dinode_block_with(s2.image, sb, i as int, d2),
                                );
                                match r2 {
                                    Err(e) => (undo_spec(s3, sb, i), s, Err(e)),
                                    Ok(_) => {
                                        let (s4, r4) = enter_spec(s3, sb, pnum, name, ftype, i);
                                        match r4 {
                                            Err(e) => (s4, s, Err(e)),
                                            Ok(_) => (
                                                s4,
                                                table_get(s, i),
                                                Ok(
                                                    InodePtr {
                                                        slot: table_slot(s, i) as usize,
                                                        inum: i,
                                                    },
                                                ),
                                            ),
                                        }
                                    },
                                }
                            },
                        }
                    },
                }
            },
        }
    }
}

/// What creating the path does. The directory that is to hold the new
/// name has to exist. If it has the name already, a handle on what the
/// name names is given out if that is of type `ftype`, and else the call
/// fails. If it has not, a new inode is made; see `make_spec`.
pub open spec fn create_spec(
    st: VolState,
    s: Seq<Inode>,
    sb: SuperBlock,
    path: Seq<u8>,
    ftype: FileType,
) -> (VolState, Seq<Inode>, Result<InodePtr, FsError>) {
    match resolve_parent_spec(st.image, sb, path) {
        Err(e) => (st, s, Err(e)),
        Ok((pnum, name)) => {
            let pd = dinode_at(st.image, sb, pnum as int);
            if pd.ftype != 2 {
                (st, s, Err(FsError::NotADirectory))
            } else {
                match dir_scan(st.image, sb, pd, name, 0) {
                    Err(e) => (st, s, Err(e)),
                    Ok(Some((inum, _))) => if inum >= sb.ninodes {
                        (st, s, Err(FsError::Corrupt))
                    } else if dinode_at(st.image, sb, inum as int).ftype == ftype.code() {
                        let (s1, r1) = get_inode_spec(s, sb, inum);
                        (st, s1, r1)
                    } else {
                        (st, s, Err(FsError::AlreadyExists))
                    },
                    Ok(None) => make_spec(st, s, sb, pnum, pd, name, ftype),
                }
            }
        },
    }
}

/// Gives a new inode its first entries; see `first_entries_spec`.
fn first_entries<D: BlockDevice>(vol: &mut Volume<D>, ftype: FileType, inum: u32, parent: u32) -> (r:
    (DiskInode, Result<(), FsError>))
    requires
        old(vol).inv(),
        old(vol).in_txn(),
    ensures
        final(vol).inv(),
        final(vol).stays(old(vol)),
        (final(vol).state(), r.0@, r.1) == first_entries_spec(
            old(vol).state(),
            old(vol).sb,
            ftype,
            inum,
            parent,
        ),
{
    let mut d = new_dinode(ftype);
    proof {
        vol.lemma_stays_refl();
    }
    match ftype {
        FileType::Dir => {
            let dot = [DOT];
            let dotdot = [DOT, DOT];
            proof {
                assert(dot@ =~= dot_name());
                assert(dotdot@ =~= dotdot_name());
            }
            match dir_link(vol, &mut d, &dot, inum) {
                Err(e) => (d, Err(e)),
                Ok(()) => {
                    let ghost v1 = *vol;
                    let r = dir_link(vol, &mut d, &dotdot, parent);
                    proof {
                        vol.lemma_stays_trans(&v1, old(vol));
                    }
                    (d, r)
                },
            }
        },
        _ => (d, Ok(())),
    }
}

/// Makes a new inode; see `make_spec`.
#[verifier::rlimit(40)]
fn make<D: BlockDevice>(
    fs: &mut Filesystem<D>,
    pnum: u32,
    pd: DiskInode,
    name: &[u8],
    ftype: FileType,
) -> (r: Result<InodePtr, FsError>)
    requires
        old(fs).inv(),
        old(fs).vol.in_txn(),
        pnum < old(fs).vol.sb.ninodes,
    ensures
        final(fs).inv(),
        final(fs).vol.stays(&old(fs).vol),
        final(fs).files == old(fs).files,
        (final(fs).vol.state(), final(fs).inodes.slots@, r) == make_spec(
            old(fs).vol.state(),
            old(fs).inodes.slots@,
            old(fs).vol.sb,
            pnum,
            pd@,
            name@,
            ftype,
        ),
        r matches Ok(ip) ==> final(fs).inodes.holds(ip),
{
    let ghost v0 = fs.vol;
    proof {
        fs.vol.lemma_stays_refl();
    }
    if name.len() > 28 {
        return Err(FsError::NameTooLong);
    }
    let is_dir = match ftype {
        FileType::Dir => true,
        _ => false,
    };
    if is_dir && pd.nlink == 0xffff {
        return Err(FsError::TooManyLinks);
    }
    let i = match find_free_inode(&mut fs.vol) {
        None => {
            return Err(FsError::NoInodes);
        },
        Some(i) => i,
    };
    if !fs.inodes.has_room(i) {
        return Err(FsError::TableFull);
    }
    proof {
        lemma_inode_block_range(fs.vol.sb, pnum as int);
        lemma_inode_block_range(fs.vol.sb, i as int);
    }
    let (pblk, _poff) = addr_of_inode(&fs.vol.sb, pnum);
    let (iblk, _ioff) = addr_of_inode(&fs.vol.sb, i);
    let ghost va = fs.vol;
    match fs.vol.reserve(pblk) {
        Err(e) => {
            proof {
                fs.vol.lemma_stays_trans(&va, &v0);
            }
            return Err(e);
        },
        Ok(()) => {},
    }
    let ghost vb = fs.vol;
    proof {
        fs.vol.lemma_stays_trans(&va, &v0);
    }
    match fs.vol.reserve(iblk) {
        Err(e) => {
            proof {
                fs.vol.lemma_stays_trans(&vb, &v0);
            }
            return Err(e);
        },
        Ok(()) => {},
    }
    let ghost v1 = fs.vol;
    proof {
        fs.vol.lemma_stays_trans(&vb, &v0);
    }
    let (d, r2) = first_entries(&mut fs.vol, ftype, i, pnum);
    let ghost v2 = fs.vol;
    proof {
        fs.vol.lemma_stays_trans(&v1, &v0);
    }
    let _w3 = write_dinode(&mut fs.vol, i, &d);
    let ghost v3 = fs.vol;
    proof {
        fs.vol.lemma_stays_trans(&v2, &v0);
    }
    match r2 {
        Err(e) => {
            undo(&mut fs.vol, i);
            proof {
                fs.vol.lemma_stays_trans(&v3, &v0);
            }
            return Err(e);
        },
        Ok(()) => {},
    }
    let r4 = enter(&mut fs.vol, pnum, name, ftype, i);
    proof {
        fs.vol.lemma_stays_trans(&v3, &v0);
    }
    match r4 {
        Err(e) => {
            return Err(e);
        },
        Ok(()) => {},
    }
    let ip = fs.inodes.get_inode(i);
    proof {
        lemma_table_slot(old(fs).inodes.slots@, i, ip.slot as int);
    }
    Ok(ip)
}

/// Takes a new inode back; see `undo_spec`.
fn undo<D: BlockDevice>(vol: &mut Volume<D>, i: u32)
    requires
        old(vol).inv(),
        old(vol).in_txn(),
        i < old(vol).sb.ninodes,
    ensures
        final(vol).inv(),
        final(vol).stays(old(vol)),
        final(vol).state() == undo_spec(old(vol).state(), old(vol).sb, i),
{
    let cd = read_dinode(vol, i);
    if cd.ftype != 0 {
        let ghost v1 = *vol;
        let _r = drop_inode(vol, i, cd);
        proof {
            vol.lemma_stays_trans(&v1, old(vol));
        }
    }
}

/// Enters a new inode in its parent; see `enter_spec`.
fn enter<D: BlockDevice>(vol: &mut Volume<D>, pnum: u32, name: &[u8], ftype: FileType, i: u32) -> (r:
    Result<(), FsError>)
    requires
        old(vol).inv(),
        old(vol).in_txn(),
        pnum < old(vol).sb.ninodes,
        i < old(vol).sb.ninodes,
    ensures
        final(vol).inv(),
        final(vol).stays(old(vol)),
        (final(vol).state(), r) == enter_spec(old(vol).state(), old(vol).sb, pnum, name@, ftype, i),
{
    let mut pd = read_dinode(vol, pnum);
    let ghost v1 = *vol;
    if pd.ftype != 2 {
        undo(vol, i);
        proof {
            vol.lemma_stays_trans(&v1, old(vol));
        }
        return Err(FsError::NotADirectory);
    }
    let r3 = dir_link(vol, &mut pd, name, i);
    let ghost v2 = *vol;
    proof {
        vol.lemma_stays_trans(&v1, old(vol));
    }
    let is_dir = match ftype {
        FileType::Dir => true,
        _ => false,
    };
    if r3.is_ok() && is_dir && pd.nlink < 0xffff {
        pd.nlink = pd.nlink + 1;
    }
    let _w4 = write_dinode(vol, pnum, &pd);
    let ghost v3 = *vol;
    proof {
        vol.lemma_stays_trans(&v2, old(vol));
    }
    match r3 {
        Err(e) => {
            undo(vol, i);
            proof {
                vol.lemma_stays_trans(&v3, old(vol));
            }
            Err(e)
        },
        Ok(()) => Ok(()),
    }
}

/// Creates the path as an inode of type `filetype` and gives out a handle
/// on it; see `create_spec`.
pub fn create<D: BlockDevice>(fs: &mut Filesystem<D>, path: &str, filetype: FileType) -> (r: Result<
    InodePtr,
    FsError,
>)
    requires
        old(fs).inv(),
        old(fs).vol.in_txn(),
    ensures
        final(fs).inv(),
        final(fs).vol.stays(&old(fs).vol),
        final(fs).files == old(fs).files,
        (final(fs).vol.state(), final(fs).inodes.slots@, r) == create_spec(
            old(fs).vol.state(),
            old(fs).inodes.slots@,
            old(fs).vol.sb,
            path.spec_bytes(),
            filetype,
        ),
        r matches Ok(ip) ==> final(fs).inodes.holds(ip),
{
    let ghost v0 = fs.vol;
    let (pnum, name) = match resolve_parent(&mut fs.vol, path.as_bytes()) {
        Err(e) => {
            return Err(e);
        },
        Ok(p) => p,
    };
    let ghost v1 = fs.vol;
    let pd = read_dinode(&mut fs.vol, pnum);
    if pd.ftype != 2 {
        proof {
            fs.vol.lemma_stays_trans(&v1, &v0);
        }
        return Err(FsError::NotADirectory);
    }
    let ghost v2 = fs.vol;
    proof {
        fs.vol.lemma_stays_trans(&v1, &v0);
    }
    let found = dir_lookup(&mut fs.vol, &pd, name.as_slice());
    let ghost v3 = fs.vol;
    proof {
        fs.vol.lemma_stays_trans(&v2, &v0);
    }
    match found {
        Err(e) => Err(e),
        Ok(Some(hit)) => {
            if hit.0 >= fs.vol.sb.ninodes {
                return Err(FsError::Corrupt);
            }
            let cd = read_dinode(&mut fs.vol, hit.0);
            proof {
                fs.vol.lemma_stays_trans(&v3, &v0);
            }
            if cd.ftype == filetype.to_u16() {
                get_inode(fs, hit.0)
            } else {
                Err(FsError::AlreadyExists)
            }
        },
        Ok(None) => {
            let r = make(fs, pnum, pd, name.as_slice(), filetype);
            proof {
                fs.vol.lemma_stays_trans(&v3, &v0);
            }
            r
        },
    }
}

/// The inode named by one entry fewer.
pub open spec fn linked_once_less(d: DiskInodeView) -> DiskInodeView {
    DiskInodeView {
        nlink: if d.nlink > 0 {
            (d.nlink - 1) as u16
        } else {
            d.nlink
        },
        ..d
    }
}

/// What removing the name that the path ends in does. The entry is
/// removed from the directory that holds it, and the inode that it named
/// is named by one entry fewer. If no entry names the inode any more and
/// nobody holds a handle on it, the inode is freed; see `release_spec`.
/// Nothing changes if the path does not lead to an entry, or if the table
/// of inodes cannot give out a handle.
pub open spec fn unlink_spec(st: VolState, s: Seq<Inode>, sb: SuperBlock, path: Seq<u8>) -> (
    VolState,
    Seq<Inode>,
    Result<(), FsError>,
) {
    match resolve_parent_spec(st.image, sb, path) {
        Err(e) => (st, s, Err(e)),
        Ok((pnum, name)) => {
            let pd = dinode_at(st.image, sb, pnum as int);
            if pd.ftype != 2 {
                (st, s, Err(FsError::NotADirectory))
            } else {
                match dir_scan(st.image, sb, pd, name, 0) {
                    Err(e) => (st, s, Err(e)),
                    Ok(None) => (st, s, Err(FsError::NotFound)),
                    Ok(Some((c, _))) => {
                        let (t1, g1) = get_inode_spec(s, sb, c);
                        match g1 {
                            Err(e) => (st, s, Err(e)),
                            Ok(ip) => {
                                let (s1, r1) = unlink_entry_spec(st, sb, pnum, pd, name, c);
                                let (s2, t2, r2) = release_spec(s1, t1, sb, ip);
                                match r1 {
                                    Err(e) => (s2, t2, Err(e)),
                                    Ok(_) => (s2, t2, r2),
                                }
                            },
                        }
                    },
                }
            }
        },
    }
}

/// What removing the entry `name` from the directory `pnum`, whose inode is
/// `pd`, and counting one entry fewer for inode `c`, which it named, does.
pub open spec fn unlink_entry_spec(
    st: VolState,
    sb: SuperBlock,
    pnum: u32,
    pd: DiskInodeView,
    name: Seq<u8>,
    c: u32,
) -> (VolState, Result<(), FsError>) {
    let (s0, r0) = reserve_spec(st, inode_block(sb, pnum as int) as u32);
    match r0 {
        Err(e) => (s0, Err(e)),
        Ok(_) => {
            let (s1, r1) = reserve_spec(s0, inode_block(sb, c as int) as u32);
            match r1 {
                Err(e) => (s1, Err(e)),
                Ok(_) => {
                    let (s2, pd2, r2) = dir_unlink_spec(s1, sb, pd, name);
                    let (s3, r3) = bwrite_spec(
                        s2,
                        inode_block(sb, pnum as int) as u32,
                        dinode_block_with(s2.image, sb, pnum as int, pd2),
                    );
                    match r2 {
                        Err(e) => (s3, Err(e)),
                        Ok(_) => {
                            let cd = dinode_at(s3.image, sb, c as int);
                            bwrite_spec(
                                s3,
                                inode_block(sb, c as int) as u32,
                                dinode_block_with(s3.image, sb, c as int, linked_once_less(cd)),
                            )
                        },
                    }
                },
            }
        },
    }
}

/// Removes an entry and counts one entry fewer for the inode that it
/// named; see `unlink_entry_spec`.
fn unlink_entry<D: BlockDevice>(vol: &mut Volume<D>, pnum: u32, pd: DiskInode, name: &[u8], c: u32) -> (r:
    Result<(), FsError>)
    requires
        old(vol).inv(),
        old(vol).in_txn(),
        pnum < old(vol).sb.ninodes,
        c < old(vol).sb.ninodes,
    ensures
        final(vol).inv(),
        final(vol).stays(old(vol)),
        (final(vol).state(), r) == unlink_entry_spec(old(vol).state(), old(vol).sb, pnum, pd@, name@, c),
{
    proof {
        lemma_inode_block_range(vol.sb, pnum as int);
        lemma_inode_block_range(vol.sb, c as int);
    }
    let (pblk, _poff) = addr_of_inode(&vol.sb, pnum);
    let (cblk, _coff) = addr_of_inode(&vol.sb, c);
    match vol.reserve(pblk) {
        Err(e) => {
            return Err(e);
        },
        Ok(()) => {},
    }
    let ghost v0 = *vol;
    match vol.reserve(cblk) {
        Err(e) => {
            proof {
                vol.lemma_stays_trans(&v0, old(vol));
            }
            return Err(e);
        },
        Ok(()) => {},
    }
    let ghost v1 = *vol;
    proof {
        vol.lemma_stays_trans(&v0, old(vol));
    }
    let mut pd = pd;
    let r2 = dir_unlink(vol, &mut pd, name);
    let ghost v2 = *vol;
    proof {
        vol.lemma_stays_trans(&v1, old(vol));
    }
    let _w3 = write_dinode(vol, pnum, &pd);
    let ghost v3 = *vol;
    proof {
        vol.lemma_stays_trans(&v2, old(vol));
    }
    match r2 {
        Err(e) => {
            return Err(e);
        },
        Ok(_) => {},
    }
    let mut cd = read_dinode(vol, c);
    let ghost v4 = *vol;
    proof {
        vol.lemma_stays_trans(&v3, old(vol));
    }
    if cd.nlink > 0 {
        cd.nlink = cd.nlink - 1;
    }
    let w = write_dinode(vol, c, &cd);
    proof {
        vol.lemma_stays_trans(&v4, old(vol));
    }
    w
}

/// Removes the name that the path ends in; see `unlink_spec`.
#[verifier::rlimit(40)]
pub fn unlink<D: BlockDevice>(fs: &mut Filesystem<D>, path: &str) -> (r: Result<(), FsError>)
    requires
        old(fs).inv(),
        old(fs).vol.in_txn(),
    ensures
        final(fs).inv(),
        final(fs).vol.stays(&old(fs).vol),
        final(fs).files == old(fs).files,
        (final(fs).vol.state(), final(fs).inodes.slots@, r) == unlink_spec(
            old(fs).vol.state(),
            old(fs).inodes.slots@,
            old(fs).vol.sb,
            path.spec_bytes(),
        ),
{
    let ghost v0 = fs.vol;
    let (pnum, name) = match resolve_parent(&mut fs.vol, path.as_bytes()) {
        Err(e) => {
            return Err(e);
        },
        Ok(p) => p,
    };
    let ghost v1 = fs.vol;
    let pd = read_dinode(&mut fs.vol, pnum);
    if pd.ftype != 2 {
        proof {
            fs.vol.lemma_stays_trans(&v1, &v0);
        }
        return Err(FsError::NotADirectory);
    }
    let ghost v2 = fs.vol;
    proof {
        fs.vol.lemma_stays_trans(&v1, &v0);
    }
    let found = dir_lookup(&mut fs.vol, &pd, name.as_slice());
    let ghost v3 = fs.vol;
    proof {
        fs.vol.lemma_stays_trans(&v2, &v0);
    }
    let c = match found {
        Err(e) => {
            return Err(e);
        },
        Ok(None) => {
            return Err(FsError::NotFound);
        },
        Ok(Some(hit)) => hit.0,
    };
    let ip = match get_inode(fs, c) {
        Err(e) => {
            return Err(e);
        },
        Ok(ip) => ip,
    };
    let r1 = unlink_entry(&mut fs.vol, pnum, pd, name.as_slice(), c);
    let ghost v4 = fs.vol;
    proof {
        fs.vol.lemma_stays_trans(&v3, &v0);
    }
    let r2 = release(fs, ip);
    proof {
        fs.vol.lemma_stays_trans(&v4, &v0);
    }
    match r1 {
        Err(e) => Err(e),
        Ok(()) => r2,
    }
}

/// The inode without contents.
pub open spec fn emptied_dinode(d: DiskInodeView) -> DiskInodeView {
    DiskInodeView { size: 0, ..d }
}

/// What taking the contents of inode `inum`, which holds `d`, away does:
/// its blocks are freed and its size becomes 0, all as part of the open
/// transaction. Where the transaction has no room for the inode's block,
/// nothing changes; where a block cannot be freed, the inode stays as it
/// is.
pub open spec fn drop_contents_spec(st: VolState, sb: SuperBlock, inum: u32, d: DiskInodeView) -> (
    VolState,
    Result<(), FsError>,
) {
    let (s0, r0) = reserve_spec(st, inode_block(sb, inum as int) as u32);
    match r0 {
        Err(e) => (s0, Err(e)),
        Ok(_) => {
            let (s1, d1, r1) = truncate_spec(s0, sb, d);
            match r1 {
                Err(e) => (s1, Err(e)),
                Ok(_) => bwrite_spec(
                    s1,
                    inode_block(sb, inum as int) as u32,
                    dinode_block_with(s1.image, sb, inum as int, emptied_dinode(d1)),
                ),
            }
        },
    }
}

/// Takes the contents of inode `inum`, which holds `d`, away; see
/// `drop_contents_spec`.
pub fn drop_contents<D: BlockDevice>(vol: &mut Volume<D>, inum: u32, d: DiskInode) -> (r: Result<
    (),
    FsError,
>)
    requires
        old(vol).inv(),
        old(vol).in_txn(),
        inum < old(vol).sb.ninodes,
    ensures
        final(vol).inv(),
        final(vol).stays(old(vol)),
        (final(vol).state(), r) == drop_contents_spec(old(vol).state(), old(vol).sb, inum, d@),
{
    proof {
        lemma_inode_block_range(vol.sb, inum as int);
    }
    let (blk, _off) = addr_of_inode(&vol.sb, inum);
    match vol.reserve(blk) {
        Err(e) => {
            return Err(e);
        },
        Ok(()) => {},
    }
    let ghost v1 = *vol;
    let mut d = d;
    match Inode::truncate(vol, &mut d) {
        Err(e) => {
            proof {
                vol.lemma_stays_trans(&v1, old(vol));
            }
            return Err(e);
        },
        Ok(()) => {},
    }
    let ghost v2 = *vol;
    d.size = 0;
    let r = write_dinode(vol, inum, &d);
    proof {
        vol.lemma_stays_trans(&v2, &v1);
        vol.lemma_stays_trans(&v1, old(vol));
    }
    r
}

/// What freeing the first `k` blocks of a list does to the bitmap when it
/// succeeds: the bitmap says that each of them that is not 0 is free, and
/// says of every other block what it said. Only bitmap blocks change.
pub proof fn lemma_free_list_clears(st: VolState, sb: SuperBlock, list: Seq<u32>, k: int)
    requires
        sb.layout_ok(),
        sb.size <= st.image.len(),
        image_wf(st.image),
        0 <= k <= list.len(),
        free_list_spec(st, sb, list, k).1 is Ok,
    ensures
        ({
            let s1 = free_list_spec(st, sb, list, k).0;
            &&& image_wf(s1.image)
            &&& s1.image.len() == st.image.len()
            &&& forall|j: int|
                0 <= j < k && list[j] != 0 ==> !is_used(s1.image, sb, (#[trigger] list[j]) as int)
            &&& forall|c: int|
                0 <= c < sb.size && (forall|j: int| 0 <= j < k && list[j] != 0 ==> list[j] != c) ==> is_used(
                    s1.image,
                    sb,
                    c,
                ) == #[trigger] is_used(st.image, sb, c)
            &&& forall|b: int|
                0 <= b < st.image.len() && !(sb.bmapstart <= b < sb.data_start())
                    ==> #[trigger] s1.image[b] == st.image[b]
        }),
    decreases k,
{
    if k > 0 {
        let (sp, rp) = free_list_spec(st, sb, list, k - 1);
        assert(rp is Ok);
        lemma_free_list_clears(st, sb, list, k - 1);
        let b = list[k - 1];
        let s1 = free_list_spec(st, sb, list, k).0;
        if b != 0 {
            reveal(block_free_spec);
            assert(is_data_block(sb, b as int) && is_used(sp.image, sb, b as int));
            lemma_bitmap_block_range(sb, b as int);
            assert(s1.image == mark_free(sp.image, sb, b as int));
            assert forall|c: int| 0 <= c < sb.size implies (c != b ==> is_used(s1.image, sb, c)
                == is_used(sp.image, sb, c)) && !is_used(s1.image, sb, b as int) by {
                lemma_mark_free(sp.image, sb, b as int, c);
            }
            assert forall|j: int| 0 <= j < k && list[j] != 0 implies !is_used(
                s1.image,
                sb,
                (#[trigger] list[j]) as int,
            ) by {
                if j < k - 1 && list[j] != b {
                    assert(!is_used(sp.image, sb, list[j] as int));
                    // the block is a block of the image: it was freed
                    lemma_freed_in_range(st, sb, list, k - 1, j);
                }
            }
            assert forall|c: int|
                0 <= c < sb.size && (forall|j: int| 0 <= j < k && list[j] != 0 ==> list[j] != c) implies is_used(
                s1.image,
                sb,
                c,
            ) == #[trigger] is_used(st.image, sb, c) by {
                assert(list[k - 1] != c);
                assert(forall|j: int| 0 <= j < k - 1 && list[j] != 0 ==> list[j] != c);
            }
        } else {
            assert forall|c: int|
                0 <= c < sb.size && (forall|j: int| 0 <= j < k && list[j] != 0 ==> list[j] != c) implies is_used(
                s1.image,
                sb,
                c,
            ) == #[trigger] is_used(st.image, sb, c) by {
                assert(forall|j: int| 0 <= j < k - 1 && list[j] != 0 ==> list[j] != c);
            }
        }
    }
}

/// A block of the list that was freed is a block of the data area.
pub proof fn lemma_freed_in_range(st: VolState, sb: SuperBlock, list: Seq<u32>, k: int, j: int)
    requires
        0 <= j < k <= list.len(),
        list[j] != 0,
        free_list_spec(st, sb, list, k).1 is Ok,
    ensures
        is_data_block(sb, list[j] as int),
    decreases k,
{
    let (sp, rp) = free_list_spec(st, sb, list, k - 1);
    if j < k - 1 {
        lemma_freed_in_range(st, sb, list, k - 1, j);
    } else {
        reveal(block_free_spec);
    }
}

/// An inode that is freed is free on disk, and so are its blocks. Take an
/// inode of the volume that holds `d`. If freeing it succeeds, then
/// afterwards the inode's type on disk is 0, its size is 0, and the
/// bitmap says of each block that the inode held that it is free.
pub proof fn lemma_drop_inode_frees(st: VolState, sb: SuperBlock, inum: u32, d: DiskInodeView)
    requires
        sb.layout_ok(),
        sb.size <= st.image.len(),
        image_wf(st.image),
        inum < sb.ninodes,
        d.addrs.len() == 13,
        drop_inode_spec(st, sb, inum, d).1 is Ok,
    ensures
        ({
            let s2 = drop_inode_spec(st, sb, inum, d).0;
            let held = blocks_of(st.image, d);
            &&& dinode_at(s2.image, sb, inum as int).ftype == 0
            &&& dinode_at(s2.image, sb, inum as int).size == 0
            &&& forall|j: int|
                0 <= j < held.len() && held[j] != 0 ==> !is_used(
                    s2.image,
                    sb,
                    (#[trigger] held[j]) as int,
                )
        }),
{
    let blk = inode_block(sb, inum as int);
    let s0 = reserve_spec(st, blk as u32).0;
    assert(s0.image == st.image);
    let (s1, d1, r1) = truncate_spec(s0, sb, d);
    let held = blocks_of(st.image, d);
    assert(r1 is Ok);
    lemma_reserve_list(s0, sb, held, held.len() as int);
    let sr = reserve_list_spec(s0, sb, held, held.len() as int).0;
    lemma_free_list_clears(sr, sb, held, held.len() as int);
    lemma_inode_block_range(sb, inum as int);
    let s2 = drop_inode_spec(st, sb, inum, d).0;
    let nb = dinode_block_with(s1.image, sb, inum as int, freed_dinode(d1));
    assert(s2.image == s1.image.update(blk, nb));
    DiskInode::lemma_codec(freed_dinode(d1), s1.image[blk], inode_offset(inum as int));
    assert forall|j: int| 0 <= j < held.len() && held[j] != 0 implies !is_used(
        s2.image,
        sb,
        (#[trigger] held[j]) as int,
    ) by {
        lemma_freed_in_range(sr, sb, held, held.len() as int, j);
        lemma_bitmap_block_range(sb, held[j] as int);
        assert(!is_used(s1.image, sb, held[j] as int));
        assert(s2.image[bitmap_block(sb, held[j] as int)] == s1.image[bitmap_block(
            sb,
            held[j] as int,
        )]);
    }
}

/// Giving back the last handle on an inode that no directory entry names
/// frees the inode. Take a valid handle that is the last on its inode,
/// where the inode is in use and named by no entry. If giving it back
/// succeeds, then afterwards the inode's type on disk is 0, and the bitmap
/// says of each block that the inode held that it is free.
pub proof fn lemma_last_release_frees(st: VolState, s: Seq<Inode>, sb: SuperBlock, ip: InodePtr)
    requires
        sb.layout_ok(),
        sb.size <= st.image.len(),
        image_wf(st.image),
        ip.inum < sb.ninodes,
        slot_of(s, ip.inum, ip.slot as int),
        s[ip.slot as int].refs == 1,
        dinode_at(st.image, sb, ip.inum as int).nlink == 0,
        dinode_at(st.image, sb, ip.inum as int).ftype != 0,
        release_spec(st, s, sb, ip).2 is Ok,
    ensures
        ({
            let s2 = release_spec(st, s, sb, ip).0;
            let held = blocks_of(st.image, dinode_at(st.image, sb, ip.inum as int));
            &&& dinode_at(s2.image, sb, ip.inum as int).ftype == 0
            &&& forall|j: int|
                0 <= j < held.len() && held[j] != 0 ==> !is_used(
                    s2.image,
                    sb,
                    (#[trigger] held[j]) as int,
                )
        }),
{
    lemma_drop_inode_frees(st, sb, ip.inum, dinode_at(st.image, sb, ip.inum as int));
}

} // verus!
