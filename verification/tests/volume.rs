use fatpigeorz_fs::buffer::HandleTable;
use fatpigeorz_fs::codec::Record;
use fatpigeorz_fs::fs::{
    BlockDevice, Disk, FsError, BLOCK_NUM, FATPIGEORZMAGIC, LOGSIZE, SHARD_NUM,
};
use fatpigeorz_fs::log::{Log, LogHeader};
use fatpigeorz_fs::memdisk::MemDisk;
use fatpigeorz_fs::superblock::SuperBlock;
use fatpigeorz_fs::volume::Volume;

/// A device that counts the writes and drops those beyond a budget.
struct CrashDisk {
    inner: MemDisk,
    budget: usize,
    writes: usize,
}

impl BlockDevice for CrashDisk {
    fn block_count(&self) -> u32 {
        self.inner.block_count()
    }

    fn read_block(&self, block_id: u32, buf: &mut [u8; 512]) {
        self.inner.read_block(block_id, buf)
    }

    fn write_block(&mut self, block_id: u32, buf: &[u8; 512]) {
        if self.writes < self.budget {
            self.inner.write_block(block_id, buf);
        }
        self.writes += 1;
    }
}

fn plain_superblock(size: u32) -> SuperBlock {
    let mut sb = SuperBlock::new();
    assert_eq!(sb.magic, FATPIGEORZMAGIC);
    sb.size = size;
    sb.ninodes = 1024;
    sb.nlog = LOGSIZE;
    sb.logstart = 2;
    sb.inodestart = 2 + LOGSIZE;
    sb.bmapstart = 2 + LOGSIZE + 128;
    sb.nblocks = size - (sb.bmapstart + 1);
    sb
}

fn formatted(size: u32) -> MemDisk {
    let mut disk = MemDisk::new(size);
    let mut blk = [0u8; 512];
    plain_superblock(size).store(&mut blk, 0);
    disk.write_block(1, &blk);
    disk
}

#[test]
fn mount_refuses_a_blank_device() {
    let r = Volume::mount(MemDisk::new(64));
    assert!(matches!(r, Err(FsError::Corrupt)));
}

#[test]
fn mount_reads_the_superblock() {
    let vol = Volume::mount(formatted(2048)).unwrap();
    assert_eq!(vol.sb, plain_superblock(2048));
    assert_eq!(vol.log_room(), LOGSIZE - 1);
}

#[test]
fn a_write_is_seen_at_once_and_durable_after_the_commit() {
    let mut vol = Volume::mount(formatted(2048)).unwrap();
    assert!(vol.log_begin());
    let data = [7u8; 512];
    vol.bwrite(300, &data).unwrap();
    assert_eq!(vol.bread(300), data);
    // not on the device yet
    let mut raw = [0u8; 512];
    vol.disk.dev.read_block(300, &mut raw);
    assert_eq!(raw, [0u8; 512]);
    assert_eq!(vol.log_room(), LOGSIZE - 2);
    vol.log_end();
    vol.disk.dev.read_block(300, &mut raw);
    assert_eq!(raw, data);
    assert_eq!(vol.log_room(), LOGSIZE - 1);
    let dev = vol.unmount();
    let mut vol = Volume::mount(dev).unwrap();
    assert_eq!(vol.bread(300), data);
}

#[test]
fn a_second_write_to_a_block_takes_no_second_place() {
    let mut vol = Volume::mount(formatted(2048)).unwrap();
    assert!(vol.log_begin());
    vol.bwrite(300, &[1u8; 512]).unwrap();
    vol.bwrite(300, &[2u8; 512]).unwrap();
    assert_eq!(vol.log_room(), LOGSIZE - 2);
    vol.log_end();
    assert_eq!(vol.bread(300), [2u8; 512]);
}

#[test]
fn the_log_takes_no_more_blocks_than_its_body_has() {
    let mut vol = Volume::mount(formatted(2048)).unwrap();
    assert!(vol.log_begin());
    for i in 0..(LOGSIZE - 1) {
        vol.bwrite(300 + 4 * i, &[i as u8; 512]).unwrap();
    }
    assert_eq!(vol.log_room(), 0);
    assert_eq!(vol.bwrite(1000, &[9u8; 512]), Err(FsError::LogFull));
    // a block of the transaction can still be written
    vol.bwrite(300, &[8u8; 512]).unwrap();
    vol.log_end();
    assert_eq!(vol.bread(300), [8u8; 512]);
    assert_eq!(vol.bread(304), [1u8; 512]);
    assert_eq!(vol.bread(1000), [0u8; 512]);
}

#[test]
fn a_crash_before_the_header_loses_the_transaction_and_one_after_keeps_it() {
    // the commit of two blocks makes six writes: two to the log body, the
    // header, two to the homes, the header again
    for budget in 0..=6usize {
        let dev = CrashDisk { inner: formatted(2048), budget, writes: 0 };
        let mut vol = Volume::mount(dev).unwrap();
        assert!(vol.log_begin());
        vol.bwrite(300, &[1u8; 512]).unwrap();
        vol.bwrite(301, &[2u8; 512]).unwrap();
        vol.log_end();
        let dev = vol.unmount();
        assert_eq!(dev.writes, 6);
        let mut vol = Volume::mount(dev.inner).unwrap();
        let a = vol.bread(300);
        let b = vol.bread(301);
        if budget <= 2 {
            assert_eq!(a, [0u8; 512]);
            assert_eq!(b, [0u8; 512]);
        } else {
            assert_eq!(a, [1u8; 512]);
            assert_eq!(b, [2u8; 512]);
        }
        // the header on disk names no block after recovery
        assert_eq!(&vol.bread(2)[0..4], &[0u8, 0, 0, 0]);
    }
}

#[test]
fn recovery_twice_is_recovery_once() {
    let dev = CrashDisk { inner: formatted(2048), budget: 3, writes: 0 };
    let mut vol = Volume::mount(dev).unwrap();
    assert!(vol.log_begin());
    vol.bwrite(300, &[1u8; 512]).unwrap();
    vol.log_end();
    let crashed = vol.unmount().inner;
    let once = Volume::mount(crashed).unwrap().unmount();
    let twice = Volume::mount(once.snapshot()).unwrap().unmount();
    assert_eq!(once.blocks, twice.blocks);
}

#[test]
fn test_mul_thread() {
    // a hundred operations, up to four of them open at a time, each
    // writing its number into a block of its own
    let mut vol = Volume::mount(formatted(2048)).unwrap();
    let k = 3 + LOGSIZE;
    let mut open = 0;
    for i in 0..100u32 {
        while !vol.log_begin() {
            // the log admits no more: an operation ends
            vol.log_end();
            open -= 1;
        }
        open += 1;
        let mut blk = vol.bread(i + k);
        blk[0] = i as u8;
        vol.bwrite(i + k, &blk).unwrap();
    }
    while open > 0 {
        vol.log_end();
        open -= 1;
    }
    for i in 0..100u32 {
        assert_eq!(vol.bread(i + k)[0], i as u8);
    }
    // the header on the device names no block
    let mut raw = [0u8; 512];
    vol.disk.dev.read_block(2, &mut raw);
    assert_eq!(&raw[0..4], &[0u8, 0, 0, 0]);
    for i in 0..100u32 {
        vol.disk.dev.read_block(i + k, &mut raw);
        assert_eq!(raw[0], i as u8);
    }
}

#[test]
fn test_read_write_head() {
    let mut dev = MemDisk::new(2048);
    dev.write_block(3, &[6u8; 512]);
    let mut disk = Disk::new(dev);
    let mut cache = HandleTable::new(SHARD_NUM, BLOCK_NUM);
    let mut sb = SuperBlock::new();
    sb.logstart = 2;
    sb.nlog = LOGSIZE;
    let mut log = Log::new();
    assert_eq!(log.init(&sb, &mut cache, &mut disk), Ok(()));
    let mut lh = LogHeader::new();
    lh.n = 1;
    log.lh = lh;
    log.write_head(&mut cache, &mut disk);
    let mut raw = [0u8; 512];
    disk.dev.read_block(2, &mut raw);
    assert_eq!(&raw[0..8], &[1u8, 0, 0, 0, 0, 0, 0, 0]);
    let mut log = Log::new();
    assert_eq!(log.init(&sb, &mut cache, &mut disk), Ok(()));
    // recover will empty the log
    assert_eq!(log.lh.n, 0);
    disk.dev.read_block(2, &mut raw);
    assert_eq!(&raw[0..4], &[0u8, 0, 0, 0]);
    // and has copied the block of the log body home, to block 0
    disk.dev.read_block(0, &mut raw);
    assert_eq!(raw, [6u8; 512]);
    assert_eq!(cache.read_block(0, &mut disk), [6u8; 512]);
}

#[test]
fn recovery_at_mount_copies_home_and_clears_the_header() {
    // a home behind the log
    let mut disk = formatted(2048);
    let mut head = [0u8; 512];
    head[0] = 1;
    head[4..8].copy_from_slice(&500u32.to_le_bytes());
    disk.write_block(2, &head);
    disk.write_block(3, &[6u8; 512]);
    let mut vol = Volume::mount(disk).unwrap();
    assert_eq!(vol.log.0.lh.n, 0);
    assert_eq!(vol.bread(500), [6u8; 512]);
    assert_eq!(&vol.bread(2)[0..4], &[0u8, 0, 0, 0]);
    // a home before the log
    let mut disk = formatted(2048);
    let mut head = [0u8; 512];
    head[0] = 1;
    disk.write_block(2, &head);
    disk.write_block(3, &[6u8; 512]);
    let mut vol = Volume::mount(disk).unwrap();
    assert_eq!(vol.log.0.lh.n, 0);
    assert_eq!(vol.bread(0), [6u8; 512]);
    assert_eq!(&vol.bread(2)[0..4], &[0u8, 0, 0, 0]);
    // a transaction that leaves another superblock behind
    let mut disk = formatted(2048);
    let mut head = [0u8; 512];
    head[0] = 1;
    head[4..8].copy_from_slice(&1u32.to_le_bytes());
    disk.write_block(2, &head);
    disk.write_block(3, &[6u8; 512]);
    assert!(matches!(Volume::mount(disk), Err(FsError::Corrupt)));
}

#[test]
fn a_header_that_cannot_be_acted_on_is_refused() {
    // a home inside the log
    let mut disk = formatted(2048);
    let mut head = [0u8; 512];
    head[0] = 1;
    head[4..8].copy_from_slice(&10u32.to_le_bytes());
    disk.write_block(2, &head);
    assert!(matches!(Volume::mount(disk), Err(FsError::Corrupt)));
    // more blocks than the log body has
    let mut disk = formatted(2048);
    let mut head = [0u8; 512];
    head[0] = 65;
    disk.write_block(2, &head);
    assert!(matches!(Volume::mount(disk), Err(FsError::Corrupt)));
    // a home beyond the image
    let mut disk = formatted(2048);
    let mut head = [0u8; 512];
    head[0] = 1;
    head[4..8].copy_from_slice(&5000u32.to_le_bytes());
    disk.write_block(2, &head);
    assert!(matches!(Volume::mount(disk), Err(FsError::Corrupt)));
}

#[test]
fn a_log_may_be_shorter_than_the_longest() {
    let mut disk = MemDisk::new(2048);
    let mut sb = plain_superblock(2048);
    sb.nlog = 33;
    let mut blk = [0u8; 512];
    sb.store(&mut blk, 0);
    disk.write_block(1, &blk);
    let mut vol = Volume::mount(disk).unwrap();
    assert_eq!(vol.sb.nlog, 33);
    assert_eq!(vol.log_room(), 32);
    assert!(vol.log_begin());
    vol.bwrite(700, &[4u8; 512]).unwrap();
    vol.log_end();
    let mut raw = [0u8; 512];
    vol.disk.dev.read_block(700, &mut raw);
    assert_eq!(raw, [4u8; 512]);
    // a log without a body, and one that is too long
    for nlog in [0u32, 1, LOGSIZE + 1] {
        let mut disk = MemDisk::new(2048);
        let mut sb = plain_superblock(2048);
        sb.nlog = nlog;
        sb.inodestart = 2 + LOGSIZE + 1;
        let mut blk = [0u8; 512];
        sb.store(&mut blk, 0);
        disk.write_block(1, &blk);
        assert!(matches!(Volume::mount(disk), Err(FsError::Corrupt)));
    }
}
