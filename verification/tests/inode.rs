use fatpigeorz_fs::bitmap::{block_used, Bitmap};
use fatpigeorz_fs::buffer::get_buffer_block;
use fatpigeorz_fs::codec::Record;
use fatpigeorz_fs::filesystem::Filesystem;
use fatpigeorz_fs::fs::{BlockDevice, FileType, FsError, ROOTINO};
use fatpigeorz_fs::inode::{
    block_map, create, dirlink, dirunlink, find_child, find_inode, find_parent_inode, get_inode,
    inode_alloc, nameassign, namecmp, read_dinode, release, rinode, unlink, winode, DirEntry,
    DiskInode,
};
use fatpigeorz_fs::memdisk::MemDisk;
use fatpigeorz_fs::mkfs::mkfs;
use fatpigeorz_fs::superblock::SuperBlock;

fn fresh(blocks: u32) -> Filesystem<MemDisk> {
    let mut dev = MemDisk::new(blocks);
    mkfs(&mut dev, blocks * 512).unwrap();
    Filesystem::mount(dev).unwrap()
}

/// The entries of the directory that are in use, as (name, inum).
fn list(fs: &mut Filesystem<MemDisk>, path: &str) -> Vec<(String, u32)> {
    let ip = find_inode(fs, path).unwrap();
    let mut out = Vec::new();
    let mut off = 0;
    loop {
        let mut buf = [0u8; 32];
        let n = rinode(fs, &ip, &mut buf, off, 32).unwrap();
        if n == 0 {
            break;
        }
        assert_eq!(n, 32);
        let e = DirEntry::load(&buf, 0);
        if e.inum != 0 {
            let len = e.name.iter().position(|b| *b == 0).unwrap_or(28);
            out.push((String::from_utf8(e.name[..len].to_vec()).unwrap(), e.inum));
        }
        off += 32;
    }
    release(fs, ip).unwrap();
    out
}

fn dinode_of(fs: &mut Filesystem<MemDisk>, path: &str) -> DiskInode {
    let ip = find_inode(fs, path).unwrap();
    let d = read_dinode(&mut fs.vol, ip.inum);
    release(fs, ip).unwrap();
    d
}

#[test]
fn a_new_filesystem_has_a_root_with_dot_and_dotdot() {
    let mut fs = fresh(2048);
    assert!(fs.vol.log_begin());
    assert_eq!(list(&mut fs, "/"), vec![(".".to_string(), 1), ("..".to_string(), 1)]);
    let root = dinode_of(&mut fs, "/");
    assert_eq!(root.ftype, 2);
    assert_eq!(root.nlink, 1);
    assert_eq!(root.size, 64);
    fs.vol.log_end();
}

#[test]
fn test_creat_read_write() {
    let mut fs = fresh(4096);
    assert!(fs.vol.log_begin());
    let testi = create(&mut fs, "/test", FileType::File).unwrap();
    assert_eq!(winode(&mut fs, &testi, &[1, 2, 3, 4, 5, 6], 0, 6), Ok(6));
    let mut buf = [0u8; 6];
    assert_eq!(rinode(&mut fs, &testi, &mut buf, 0, 6), Ok(6));
    assert_eq!(buf, [1, 2, 3, 4, 5, 6]);
    let d = read_dinode(&mut fs.vol, testi.inum);
    assert_eq!(d.size, 6);
    assert_eq!(d.nlink, 1);
    // a file with direct blocks and a block behind the indirect block
    let big = [1u8; 512 * 13];
    assert_eq!(winode(&mut fs, &testi, &big, 0, 512 * 13), Ok(512 * 13));
    let mut back = [0u8; 512 * 13];
    assert_eq!(rinode(&mut fs, &testi, &mut back, 0, 512 * 13), Ok(512 * 13));
    assert_eq!(back, big);
    let d = read_dinode(&mut fs.vol, testi.inum);
    assert_eq!(d.size, 6656);
    assert!(d.addrs.iter().all(|a| *a != 0));
    release(&mut fs, testi).unwrap();
    fs.vol.log_end();
    // and after a remount
    let dev = fs.unmount();
    let mut fs = Filesystem::mount(dev).unwrap();
    assert!(fs.vol.log_begin());
    let again = find_inode(&mut fs, "/test").unwrap();
    let mut back = [0u8; 512 * 13];
    assert_eq!(rinode(&mut fs, &again, &mut back, 0, 512 * 13), Ok(512 * 13));
    assert_eq!(back, big);
    release(&mut fs, again).unwrap();
    fs.vol.log_end();
}

#[test]
fn test_bmap() {
    let mut fs = fresh(4096);
    assert!(fs.vol.log_begin());
    let ip = inode_alloc(&mut fs, FileType::File).unwrap();
    let r = ip.modify_disk_inode(&mut fs, |d: &mut DiskInode| {
        d.nlink = 1;
        d.size = 0;
    });
    assert_eq!(r, Ok(()));
    let mut d = read_dinode(&mut fs.vol, ip.inum);
    let addr = block_map(&mut d, &mut fs.vol, 0);
    assert_eq!(addr, Ok(197));
    assert_eq!(d.addrs[0], 197);
    // beyond the largest file
    assert_eq!(block_map(&mut d, &mut fs.vol, 12 + 128), Ok(0));
    release(&mut fs, ip).unwrap();
    fs.vol.log_end();
}

#[test]
fn test_mkdir() {
    let mut fs = fresh(2048);
    assert!(fs.vol.log_begin());
    assert_eq!(dinode_of(&mut fs, "/").nlink, 1);
    let d = create(&mut fs, "/test/", FileType::Dir).unwrap();
    let f = create(&mut fs, "/test/test", FileType::File).unwrap();
    assert_eq!(
        list(&mut fs, "/test"),
        vec![(".".to_string(), d.inum), ("..".to_string(), ROOTINO), ("test".to_string(), f.inum)]
    );
    let fd = read_dinode(&mut fs.vol, f.inum);
    assert_eq!((fd.ftype, fd.size, fd.nlink), (1, 0, 1));
    // the parent of a new directory is named by one more entry
    assert_eq!(dinode_of(&mut fs, "/").nlink, 2);
    assert_eq!(dinode_of(&mut fs, "/test").nlink, 1);
    // creating what exists gives what exists
    let again = create(&mut fs, "/test", FileType::Dir).unwrap();
    assert_eq!(again, d);
    assert_eq!(create(&mut fs, "/test", FileType::File), Err(FsError::AlreadyExists));
    assert_eq!(create(&mut fs, "/nowhere/x", FileType::File), Err(FsError::NotFound));
    assert_eq!(create(&mut fs, "/test/test/x", FileType::File), Err(FsError::NotADirectory));
    assert_eq!(
        create(&mut fs, "/a-name-that-is-longer-than-an-entry", FileType::File),
        Err(FsError::NameTooLong)
    );
    release(&mut fs, again).unwrap();
    release(&mut fs, d).unwrap();
    release(&mut fs, f).unwrap();
    fs.vol.log_end();
}

#[test]
fn removing_a_file_frees_its_inode_and_its_blocks() {
    let mut fs = fresh(2048);
    assert!(fs.vol.log_begin());
    let x = create(&mut fs, "/x", FileType::File).unwrap();
    assert_eq!(winode(&mut fs, &x, &[7u8; 1000], 0, 1000), Ok(1000));
    let d = read_dinode(&mut fs.vol, x.inum);
    let (b0, b1) = (d.addrs[0], d.addrs[1]);
    assert!(b0 != 0 && b1 != 0);
    assert!(block_used(&mut fs.vol, b0));
    assert!(block_used(&mut fs.vol, b1));
    release(&mut fs, x).unwrap();
    fs.vol.log_end();

    assert!(fs.vol.log_begin());
    assert_eq!(unlink(&mut fs, "/x"), Ok(()));
    assert!(!block_used(&mut fs.vol, b0));
    assert!(!block_used(&mut fs.vol, b1));
    let gone = read_dinode(&mut fs.vol, x.inum);
    assert_eq!((gone.ftype, gone.size), (0, 0));
    assert_eq!(find_inode(&mut fs, "/x"), Err(FsError::NotFound));
    assert_eq!(unlink(&mut fs, "/x"), Err(FsError::NotFound));
    let mut bm = Bitmap::new();
    bm.init(&mut fs.vol);
    assert!(!bm.is_set(b0));
    assert!(bm.is_set(b0 - 1));
    // the blocks are used again
    let y = create(&mut fs, "/y", FileType::File).unwrap();
    assert_eq!(y.inum, x.inum);
    assert_eq!(winode(&mut fs, &y, &[8u8; 1000], 0, 1000), Ok(1000));
    let d = read_dinode(&mut fs.vol, y.inum);
    assert_eq!((d.addrs[0], d.addrs[1]), (b0, b1));
    release(&mut fs, y).unwrap();
    fs.vol.log_end();
}

#[test]
fn an_open_inode_is_freed_when_the_last_handle_goes() {
    let mut fs = fresh(2048);
    assert!(fs.vol.log_begin());
    let x = create(&mut fs, "/x", FileType::File).unwrap();
    assert_eq!(winode(&mut fs, &x, &[7u8; 10], 0, 10), Ok(10));
    let b0 = read_dinode(&mut fs.vol, x.inum).addrs[0];
    assert_eq!(unlink(&mut fs, "/x"), Ok(()));
    // still held: still there
    assert!(block_used(&mut fs.vol, b0));
    let mut buf = [0u8; 10];
    assert_eq!(rinode(&mut fs, &x, &mut buf, 0, 10), Ok(10));
    assert_eq!(buf, [7u8; 10]);
    release(&mut fs, x).unwrap();
    assert!(!block_used(&mut fs.vol, b0));
    assert_eq!(read_dinode(&mut fs.vol, x.inum).ftype, 0);
    fs.vol.log_end();
}

#[test]
fn reading_stops_at_the_end_of_the_file() {
    let mut fs = fresh(2048);
    assert!(fs.vol.log_begin());
    let x = create(&mut fs, "/x", FileType::File).unwrap();
    assert_eq!(winode(&mut fs, &x, &[1, 2, 3], 510, 3), Ok(3));
    let mut buf = [9u8; 8];
    assert_eq!(rinode(&mut fs, &x, &mut buf, 509, 8), Ok(4));
    assert_eq!(buf, [0, 1, 2, 3, 9, 9, 9, 9]);
    assert_eq!(rinode(&mut fs, &x, &mut buf, 513, 8), Ok(0));
    assert_eq!(rinode(&mut fs, &x, &mut buf, 600, 8), Ok(0));
    // a write beyond the largest file is cut
    let lim = (12 + 128) * 512;
    assert_eq!(winode(&mut fs, &x, &[5u8; 4], lim - 2, 4), Ok(2));
    assert_eq!(winode(&mut fs, &x, &[5u8; 4], lim, 4), Ok(0));
    assert_eq!(read_dinode(&mut fs.vol, x.inum).size as usize, lim);
    release(&mut fs, x).unwrap();
    fs.vol.log_end();
}

/// A device that drops the writes beyond a budget.
struct CrashDisk {
    inner: MemDisk,
    budget: usize,
    writes: usize,
}

impl BlockDevice for CrashDisk {
    fn block_count(&self) -> u32 {
        self.inner.block_count()
    }

    fn read_block(&self, block_id: u32, buf: &mut [u8; 512]) {
        self.inner.read_block(block_id, buf)
    }

    fn write_block(&mut self, block_id: u32, buf: &[u8; 512]) {
        if self.writes < self.budget {
            self.inner.write_block(block_id, buf);
        }
        self.writes += 1;
    }
}

#[test]
fn a_crash_leaves_no_file_or_the_whole_file() {
    let mut budget = 0;
    let mut seen_none = false;
    let mut seen_all = false;
    loop {
        let mut inner = MemDisk::new(2048);
        mkfs(&mut inner, 2048 * 512).unwrap();
        let mut fs = Filesystem::mount(CrashDisk { inner, budget, writes: 0 }).unwrap();
        assert!(fs.vol.log_begin());
        let a = create(&mut fs, "/a", FileType::File).unwrap();
        assert_eq!(winode(&mut fs, &a, &[1u8; 512 * 13], 0, 512 * 13), Ok(512 * 13));
        release(&mut fs, a).unwrap();
        fs.vol.log_end();
        let dev = fs.unmount();
        let total = dev.writes;
        // after the crash
        let mut fs = Filesystem::mount(dev.inner).unwrap();
        assert!(fs.vol.log_begin());
        match find_inode(&mut fs, "/a") {
            Err(e) => {
                assert_eq!(e, FsError::NotFound);
                seen_none = true;
            }
            Ok(ip) => {
                assert_eq!(read_dinode(&mut fs.vol, ip.inum).size, 6656);
                let mut back = [0u8; 512 * 13];
                assert_eq!(rinode(&mut fs, &ip, &mut back, 0, 512 * 13), Ok(512 * 13));
                assert_eq!(back, [1u8; 512 * 13]);
                release(&mut fs, ip).unwrap();
                seen_all = true;
            }
        }
        fs.vol.log_end();
        if budget >= total {
            break;
        }
        budget += 1;
    }
    assert!(seen_none && seen_all);
}

/// The blocks that the bitmap marks as used.
fn used_blocks(fs: &mut Filesystem<MemDisk>) -> Vec<u32> {
    let mut bm = Bitmap::new();
    bm.init(&mut fs.vol);
    (0..fs.vol.sb.size).filter(|b| bm.is_set(*b)).collect()
}

/// The metadata blocks and the blocks that the inodes in use hold.
fn held_blocks(fs: &mut Filesystem<MemDisk>) -> Vec<u32> {
    let sb = fs.vol.sb;
    let start = sb.bmapstart + (sb.size + 4095) / 4096;
    let mut held: Vec<u32> = (0..start).collect();
    for inum in 1..sb.ninodes {
        let d = read_dinode(&mut fs.vol, inum);
        if d.ftype == 0 {
            continue;
        }
        held.extend(d.addrs.iter().filter(|a| **a != 0));
        if d.addrs[12] != 0 {
            let blk = fs.vol.bread(d.addrs[12]);
            for k in 0..128 {
                let a = u32::from_le_bytes([blk[4 * k], blk[4 * k + 1], blk[4 * k + 2], blk[4 * k + 3]]);
                if a != 0 {
                    held.push(a);
                }
            }
        }
    }
    held.sort();
    held
}

#[test]
fn the_bitmap_marks_what_is_held() {
    let mut fs = fresh(2048);
    assert_eq!(used_blocks(&mut fs), held_blocks(&mut fs));
    assert!(fs.vol.log_begin());
    let d = create(&mut fs, "/d", FileType::Dir).unwrap();
    let f = create(&mut fs, "/d/f", FileType::File).unwrap();
    assert_eq!(winode(&mut fs, &f, &[1u8; 512 * 14], 0, 512 * 14), Ok(512 * 14));
    let g = create(&mut fs, "/g", FileType::File).unwrap();
    assert_eq!(winode(&mut fs, &g, &[2u8; 700], 100, 700), Ok(700));
    fs.vol.log_end();
    assert_eq!(used_blocks(&mut fs), held_blocks(&mut fs));
    assert!(fs.vol.log_begin());
    release(&mut fs, f).unwrap();
    assert_eq!(unlink(&mut fs, "/d/f"), Ok(()));
    assert_eq!(used_blocks(&mut fs), held_blocks(&mut fs));
    release(&mut fs, d).unwrap();
    release(&mut fs, g).unwrap();
    fs.vol.log_end();
    assert_eq!(used_blocks(&mut fs), held_blocks(&mut fs));
}

#[test]
fn every_new_directory_has_dot_and_dotdot() {
    let mut fs = fresh(2048);
    assert!(fs.vol.log_begin());
    let a = create(&mut fs, "/a", FileType::Dir).unwrap();
    let b = create(&mut fs, "/a/b", FileType::Dir).unwrap();
    let la = list(&mut fs, "/a");
    assert_eq!(&la[..2], &[(".".to_string(), a.inum), ("..".to_string(), 1)]);
    let lb = list(&mut fs, "/a/b");
    assert_eq!(lb, vec![(".".to_string(), b.inum), ("..".to_string(), a.inum)]);
    // the names lead where they say
    let up = find_inode(&mut fs, "/a/b/../b/.").unwrap();
    assert_eq!(up, b);
    release(&mut fs, up).unwrap();
    release(&mut fs, b).unwrap();
    release(&mut fs, a).unwrap();
    fs.vol.log_end();
}

#[test]
fn directories_keep_dot_and_dotdot_as_names_come_and_go() {
    let mut fs = fresh(2048);
    assert!(fs.vol.log_begin());
    let a = create(&mut fs, "/a", FileType::Dir).unwrap();
    let b = create(&mut fs, "/a/b", FileType::Dir).unwrap();
    let f = create(&mut fs, "/a/f", FileType::File).unwrap();
    let g = create(&mut fs, "/a/g", FileType::File).unwrap();
    assert_eq!(winode(&mut fs, &f, &[7u8; 600], 0, 600), Ok(600));
    release(&mut fs, f).unwrap();
    release(&mut fs, g).unwrap();
    unlink(&mut fs, "/a/f").unwrap();
    // the place of `f` is taken again, behind the first two entries
    let h = create(&mut fs, "/a/h", FileType::File).unwrap();
    release(&mut fs, h).unwrap();
    let la = list(&mut fs, "/a");
    assert_eq!(
        la,
        vec![
            (".".to_string(), a.inum),
            ("..".to_string(), 1),
            ("b".to_string(), b.inum),
            ("h".to_string(), h.inum),
            ("g".to_string(), g.inum),
        ]
    );
    assert_eq!(list(&mut fs, "/a/b"), vec![(".".to_string(), b.inum), ("..".to_string(), a.inum)]);
    assert_eq!(&list(&mut fs, "/")[..2], &[(".".to_string(), 1), ("..".to_string(), 1)]);
    release(&mut fs, b).unwrap();
    release(&mut fs, a).unwrap();
    fs.vol.log_end();
}

#[test]
fn the_volume_runs_out_of_blocks_and_of_inodes() {
    // an image with 16 data blocks, one of them the root's
    let mut fs = fresh(212);
    assert!(fs.vol.log_begin());
    let f = create(&mut fs, "/f", FileType::File).unwrap();
    let n = winode(&mut fs, &f, &[1u8; 512 * 20], 0, 512 * 20).unwrap();
    // twelve direct blocks, the indirect block and two blocks behind it
    assert_eq!(n, 512 * 14);
    assert_eq!(winode(&mut fs, &f, &[1u8; 512], n, 512), Err(FsError::NoBlocks));
    release(&mut fs, f).unwrap();
    fs.vol.log_end();
}

#[test]
fn the_volume_runs_out_of_inodes() {
    // a volume that has room for eight inodes, inode 0 and the root among them
    let mut dev = MemDisk::new(2048);
    mkfs(&mut dev, 2048 * 512).unwrap();
    let mut blk = [0u8; 512];
    dev.read_block(1, &mut blk);
    let mut sb = SuperBlock::load(&blk, 0);
    sb.ninodes = 8;
    sb.store(&mut blk, 0);
    dev.write_block(1, &blk);
    let mut fs = Filesystem::mount(dev).unwrap();
    assert!(fs.vol.log_begin());
    for (i, name) in ["/a", "/b", "/c", "/d", "/e", "/f"].iter().enumerate() {
        let ip = create(&mut fs, name, FileType::File).unwrap();
        assert_eq!(ip.inum as usize, i + 2);
        release(&mut fs, ip).unwrap();
    }
    assert_eq!(create(&mut fs, "/g", FileType::File), Err(FsError::NoInodes));
    assert_eq!(list(&mut fs, "/").len(), 8);
    // a name that goes makes room for another
    unlink(&mut fs, "/c").unwrap();
    let ip = create(&mut fs, "/g", FileType::File).unwrap();
    assert_eq!(ip.inum, 4);
    release(&mut fs, ip).unwrap();
    fs.vol.log_end();
}

#[test]
fn a_directory_is_named_by_a_limited_number_of_entries() {
    let mut fs = fresh(2048);
    assert!(fs.vol.log_begin());
    let d = create(&mut fs, "/d", FileType::Dir).unwrap();
    let r = d.modify_disk_inode(&mut fs, |x: &mut DiskInode| {
        x.nlink = 0xffff;
    });
    assert_eq!(r, Ok(()));
    assert_eq!(create(&mut fs, "/d/e", FileType::Dir), Err(FsError::TooManyLinks));
    assert_eq!(list(&mut fs, "/d").len(), 2);
    // a file is no entry that names the directory
    let f = create(&mut fs, "/d/f", FileType::File).unwrap();
    assert_eq!(dinode_of(&mut fs, "/d").nlink, 0xffff);
    release(&mut fs, f).unwrap();
    release(&mut fs, d).unwrap();
    fs.vol.log_end();
}

#[test]
fn test_get_inode() {
    let mut fs = fresh(4096);
    assert!(fs.vol.log_begin());
    let inode = get_inode(&mut fs, ROOTINO).unwrap();
    assert_eq!(list(&mut fs, "/").len(), 2);
    assert_eq!(inode.inum, 1);
    // one slot for one inode
    let again = fs.inodes.get_inode(ROOTINO);
    assert_eq!(again, inode);
    assert_eq!(fs.inodes.slots[inode.slot].refs, 2);
    assert_eq!(get_inode(&mut fs, 5000), Err(FsError::Corrupt));
    release(&mut fs, again).unwrap();
    release(&mut fs, inode).unwrap();
    assert_eq!(fs.inodes.slots[inode.slot].refs, 0);
    fs.vol.log_end();
}

#[test]
fn test_file_create() {
    let mut fs = fresh(4096);
    assert!(fs.vol.log_begin());
    let inode = inode_alloc(&mut fs, FileType::File).unwrap();
    assert_eq!(inode.inum, 2);
    // the type, and zeros
    let seen = inode.read_disk_inode(&mut fs, |d: &DiskInode| (d.ftype, d.nlink, d.size, d.addrs));
    assert_eq!(seen, (1, 0, 0, [0u32; 13]));
    let r = inode.modify_disk_inode(&mut fs, |d: &mut DiskInode| {
        d.nlink = 1;
        d.size = 0;
        d.nlink
    });
    assert_eq!(r, Ok(1));
    let d = read_dinode(&mut fs.vol, inode.inum);
    assert_eq!((d.ftype, d.nlink, d.size), (1, 1, 0));
    // no other inode has changed
    assert_eq!(read_dinode(&mut fs.vol, 1).ftype, 2);
    assert_eq!(read_dinode(&mut fs.vol, 3).ftype, 0);
    release(&mut fs, inode).unwrap();
    assert_eq!(read_dinode(&mut fs.vol, 2).ftype, 1);
    fs.vol.log_end();
}

#[test]
fn an_inode_that_no_entry_names_is_freed_with_its_handle() {
    let mut fs = fresh(4096);
    assert!(fs.vol.log_begin());
    let inode = inode_alloc(&mut fs, FileType::File).unwrap();
    assert_eq!(inode.inum, 2);
    assert_eq!(winode(&mut fs, &inode, &[9u8; 100], 0, 100), Ok(100));
    let b0 = read_dinode(&mut fs.vol, 2).addrs[0];
    assert!(block_used(&mut fs.vol, b0));
    release(&mut fs, inode).unwrap();
    let d = read_dinode(&mut fs.vol, 2);
    assert_eq!((d.ftype, d.size, d.addrs), (0, 0, [0u32; 13]));
    assert!(!block_used(&mut fs.vol, b0));
    // the inode is given out again
    let again = inode_alloc(&mut fs, FileType::Dir).unwrap();
    assert_eq!(again.inum, 2);
    assert_eq!(read_dinode(&mut fs.vol, 2).ftype, 2);
    release(&mut fs, again).unwrap();
    fs.vol.log_end();
}

#[test]
fn a_change_to_an_inode_needs_room_in_the_transaction() {
    let mut fs = fresh(4096);
    assert!(fs.vol.log_begin());
    let f = create(&mut fs, "/f", FileType::File).unwrap();
    fs.vol.log_end();
    assert!(fs.vol.log_begin());
    // the transaction takes in as many blocks as the log body has
    let mut b = 1000;
    while fs.vol.log_room() > 0 {
        fs.vol.bwrite(b, &[1u8; 512]).unwrap();
        b += 1;
    }
    let r = f.modify_disk_inode(&mut fs, |d: &mut DiskInode| {
        d.size = 5;
    });
    assert_eq!(r, Err(FsError::LogFull));
    assert_eq!(read_dinode(&mut fs.vol, f.inum).size, 0);
    fs.vol.log_end();
    // with room, or with the inode's block in the transaction, it succeeds
    assert!(fs.vol.log_begin());
    let r = f.modify_disk_inode(&mut fs, |d: &mut DiskInode| {
        d.size = 5;
    });
    assert_eq!(r, Ok(()));
    assert_eq!(read_dinode(&mut fs.vol, f.inum).size, 5);
    release(&mut fs, f).unwrap();
    fs.vol.log_end();
}

#[test]
fn a_read_needs_no_transaction_and_changes_nothing() {
    let mut fs = fresh(2048);
    assert!(fs.vol.log_begin());
    let x = create(&mut fs, "/x", FileType::File).unwrap();
    assert_eq!(winode(&mut fs, &x, &[7u8; 100], 1000, 100), Ok(100));
    fs.vol.log_end();
    let before = fs.vol.disk.dev.snapshot().blocks;
    let d0 = read_dinode(&mut fs.vol, x.inum);
    assert_eq!((d0.size, d0.addrs[0] == 0, d0.addrs[1] != 0, d0.addrs[2] != 0), (1100, true, true, true));
    // outside a transaction; the first block is a hole and reads as zeros
    let mut buf = [1u8; 1200];
    assert_eq!(rinode(&mut fs, &x, &mut buf, 0, 1200), Ok(1100));
    assert!(buf[..1000].iter().all(|b| *b == 0));
    assert!(buf[1000..1100].iter().all(|b| *b == 7));
    assert!(buf[1100..].iter().all(|b| *b == 1));
    assert_eq!(rinode(&mut fs, &x, &mut buf, 1101, 8), Ok(0));
    let d1 = read_dinode(&mut fs.vol, x.inum);
    assert_eq!((d1.size, d1.addrs), (d0.size, d0.addrs));
    assert_eq!(fs.vol.log.0.lh.n, 0);
    assert!(fs.vol.disk.dev.snapshot().blocks == before);
    // an address that is no block of the data area
    assert!(fs.vol.log_begin());
    let r = x.modify_disk_inode(&mut fs, |d: &mut DiskInode| {
        d.addrs[0] = 5;
    });
    assert_eq!(r, Ok(()));
    fs.vol.log_end();
    assert_eq!(rinode(&mut fs, &x, &mut buf, 0, 10), Err(FsError::Corrupt));
    assert_eq!(rinode(&mut fs, &x, &mut buf, 600, 10), Ok(10));
    assert!(fs.vol.log_begin());
    let _ = x.modify_disk_inode(&mut fs, |d: &mut DiskInode| {
        d.addrs[0] = 0;
    });
    release(&mut fs, x).unwrap();
    fs.vol.log_end();
}

#[test]
fn test_mkfs() {
    let mut dev = MemDisk::new(4096);
    assert_eq!(mkfs(&mut dev, 512 * 512 * 8), Ok(()));
    let fs = Filesystem::mount(dev).unwrap();
    let sb = fs.vol.sb;
    assert_eq!(
        (sb.size, sb.nblocks, sb.ninodes, sb.nlog, sb.logstart, sb.inodestart, sb.bmapstart),
        (4096, 4096 - 196, 1024, 65, 2, 67, 195)
    );
    // what cannot be made
    let mut dev = MemDisk::new(4096);
    assert_eq!(mkfs(&mut dev, 1000), Err(FsError::Corrupt));
    assert_eq!(mkfs(&mut dev, 196 * 512), Err(FsError::NoBlocks));
    assert_eq!(mkfs(&mut dev, 5000 * 512), Err(FsError::NoBlocks));
    assert_eq!(mkfs(&mut dev, 197 * 512), Ok(()));
}

#[test]
fn names_are_entered_looked_up_and_removed() {
    let mut fs = fresh(2048);
    assert!(fs.vol.log_begin());
    let d = create(&mut fs, "/d", FileType::Dir).unwrap();
    let f = create(&mut fs, "/f", FileType::File).unwrap();
    // a second name for the file, in the directory
    assert_eq!(dirlink(&mut fs, &d, "also", f.inum), Ok(()));
    assert_eq!(dirlink(&mut fs, &d, "also", f.inum), Err(FsError::AlreadyExists));
    assert_eq!(
        dirlink(&mut fs, &d, "a-name-that-is-longer-than-an-entry", f.inum),
        Err(FsError::NameTooLong)
    );
    let dd = read_dinode(&mut fs.vol, d.inum);
    let found = find_child(&mut fs, dd, "also").unwrap();
    assert_eq!(found, f);
    release(&mut fs, found).unwrap();
    assert_eq!(find_child(&mut fs, dd, "als"), Err(FsError::NotFound));
    assert_eq!(find_child(&mut fs, dd, "also2"), Err(FsError::NotFound));
    let by_path = find_inode(&mut fs, "/d/also").unwrap();
    assert_eq!(by_path, f);
    release(&mut fs, by_path).unwrap();
    let parent = find_parent_inode(&mut fs, "/d/also").unwrap();
    assert_eq!(parent, d);
    release(&mut fs, parent).unwrap();
    assert_eq!(find_parent_inode(&mut fs, "/"), Err(FsError::NotFound));
    // the place of a removed name is taken again
    assert_eq!(dirunlink(&mut fs, &d, "also"), Ok(f.inum));
    assert_eq!(dirunlink(&mut fs, &d, "also"), Err(FsError::NotFound));
    assert_eq!(dirlink(&mut fs, &d, "next", f.inum), Ok(()));
    assert_eq!(list(&mut fs, "/d")[2], ("next".to_string(), f.inum));
    assert_eq!(read_dinode(&mut fs.vol, d.inum).size, 96);
    release(&mut fs, d).unwrap();
    release(&mut fs, f).unwrap();
    fs.vol.log_end();
}

#[test]
fn a_name_field_holds_a_name_padded_with_zeros() {
    let mut field = [7u8; 8];
    assert_eq!(nameassign(&mut field, &"abc".to_string()), Ok(()));
    assert_eq!(field, [97, 98, 99, 0, 0, 0, 0, 0]);
    assert!(namecmp(&field, &"abc".to_string()));
    assert!(!namecmp(&field, &"ab".to_string()));
    assert!(!namecmp(&field, &"abcd".to_string()));
    assert!(!namecmp(&field, &"abcdefghij".to_string()));
    assert_eq!(nameassign(&mut field, &"abcdefghi".to_string()), Err(FsError::NameTooLong));
    assert_eq!(field, [97, 98, 99, 0, 0, 0, 0, 0]);
    assert_eq!(nameassign(&mut field, &"abcdefgh".to_string()), Ok(()));
    assert!(namecmp(&field, &"abcdefgh".to_string()));
    assert_eq!(nameassign(&mut field, &"".to_string()), Ok(()));
    assert_eq!(field, [0u8; 8]);
}

#[test]
fn the_cache_is_read_through() {
    let mut fs = fresh(2048);
    let sb_block = get_buffer_block(&mut fs.vol, 1);
    assert_eq!(&sb_block[0..4], &0x14451100u32.to_le_bytes());
    // the pool keeps its size
    let buffers: usize = fs.vol.cache.handles.iter().map(|h| h.bufs.len()).sum();
    assert_eq!(buffers, 260);
    for b in 0..2048 {
        get_buffer_block(&mut fs.vol, b);
    }
    let buffers: usize = fs.vol.cache.handles.iter().map(|h| h.bufs.len()).sum();
    assert_eq!(buffers, 260);
    let loaded: usize = fs
        .vol
        .cache
        .handles
        .iter()
        .map(|h| h.bufs.iter().filter(|b| b.loaded).count())
        .sum();
    assert_eq!(loaded, 260);
}

#[test]
fn test_layer() {
    let mut dev = MemDisk::new(2048);
    mkfs(&mut dev, 2048 * 512).unwrap();
    for i in 0..64u32 {
        dev.write_block(1000 + i, &[(64 - i) as u8; 512]);
    }
    let mut fs = Filesystem::mount(dev).unwrap();
    // 64 readers, one after another
    for _ in 0..64 {
        for j in 0..64u32 {
            let buffer = get_buffer_block(&mut fs.vol, 1000 + j);
            assert_eq!(buffer, [(64 - j) as u8; 512]);
        }
    }
}

#[test]
fn mapping_takes_one_block_and_changes_one_place() {
    let mut fs = fresh(2048);
    assert!(fs.vol.log_begin());
    let ip = create(&mut fs, "/f", FileType::File).unwrap();
    let mut d = read_dinode(&mut fs.vol, ip.inum);
    let used = |fs: &mut Filesystem<MemDisk>| -> Vec<u32> {
        (0..2048).filter(|b| block_used(&mut fs.vol, *b)).collect()
    };
    let before = used(&mut fs);
    // a direct block
    let b3 = block_map(&mut d, &mut fs.vol, 3).unwrap();
    assert!(!before.contains(&b3));
    let mut now = before.clone();
    now.push(b3);
    assert_eq!(used(&mut fs), now);
    let mut addrs = [0u32; 13];
    addrs[3] = b3;
    assert_eq!(d.addrs, addrs);
    // a block behind the indirect block, which is taken too
    let b20 = block_map(&mut d, &mut fs.vol, 20).unwrap();
    addrs[12] = d.addrs[12];
    assert_eq!(d.addrs, addrs);
    assert!(addrs[12] != 0 && !now.contains(&addrs[12]) && !now.contains(&b20));
    now.push(addrs[12]);
    now.push(b20);
    assert_eq!(used(&mut fs), now);
    let ind = fs.vol.bread(addrs[12]);
    for k in 0..128usize {
        let e = u32::from_le_bytes([ind[4 * k], ind[4 * k + 1], ind[4 * k + 2], ind[4 * k + 3]]);
        assert_eq!(e, if k == 8 { b20 } else { 0 });
    }
    // mapping what is mapped changes nothing
    assert_eq!(block_map(&mut d, &mut fs.vol, 20), Ok(b20));
    assert_eq!(used(&mut fs), now);
    release(&mut fs, ip).unwrap();
    fs.vol.log_end();
}
