use fatpigeorz_fs::buffer::{BufferBlock, HandleTable, LruHandle};
use fatpigeorz_fs::fs::{BlockDevice, Disk, BLOCK_NUM, SHARD_NUM};
use fatpigeorz_fs::lru::LruCache;
use fatpigeorz_fs::memdisk::MemDisk;

#[test]
fn it_works() {
    let mut lru = LruCache::new(3);
    assert_eq!(lru.put(1, 10), None);
    assert_eq!(lru.put(2, 20), None);
    assert_eq!(lru.put(3, 30), None);
    assert_eq!(lru.get(&1), Some(&10));
    assert_eq!(lru.put(2, 200), Some(20));
    assert_eq!(lru.put(4, 40), None);
    assert_eq!(lru.get(&2), Some(&200));
    assert_eq!(lru.get(&3), None);
}

fn numbered_disk(blocks: u32) -> Disk<MemDisk> {
    let mut dev = MemDisk::new(blocks);
    for i in 0..blocks {
        dev.write_block(i, &[i as u8; 512]);
    }
    Disk::new(dev)
}

fn ids(shard: &LruHandle) -> Vec<Option<u32>> {
    shard.bufs.iter().map(|b| if b.loaded { Some(b.block_id) } else { None }).collect()
}

#[test]
fn test_lru() {
    // a shard keeps its buffers from the least to the most recently used
    let mut disk = numbered_disk(16);
    let mut lru = LruHandle::new(3);
    assert!(lru.get(0, &mut disk));
    assert!(lru.get(1, &mut disk));
    assert!(lru.get(2, &mut disk));
    assert_eq!(ids(&lru), vec![Some(0), Some(1), Some(2)]);
    lru.release(0);
    lru.release(1);
    lru.release(2);
    // a hit makes the block the most recently used
    assert!(lru.get(1, &mut disk));
    assert_eq!(ids(&lru), vec![Some(0), Some(2), Some(1)]);
    // a miss takes the place of the least recently used block that nobody holds
    assert!(lru.get(5, &mut disk));
    assert_eq!(ids(&lru), vec![Some(2), Some(1), Some(5)]);
    assert_eq!(lru.peek(5).data, [5u8; 512]);
    lru.release(5);
    assert!(lru.get(6, &mut disk));
    assert_eq!(ids(&lru), vec![Some(1), Some(5), Some(6)]);
    // with every buffer held, nothing can be loaded
    assert!(lru.get(5, &mut disk));
    assert!(!lru.get(7, &mut disk));
    assert_eq!(ids(&lru), vec![Some(1), Some(6), Some(5)]);
}

#[test]
fn test_strong_ref_cnt() {
    let mut disk = numbered_disk(16);
    let mut lru = LruHandle::new(2);
    assert!(lru.get(3, &mut disk));
    assert_eq!(lru.peek(3).refs, 1);
    assert!(lru.get(3, &mut disk));
    assert_eq!(lru.peek(3).refs, 2);
    lru.release(3);
    assert_eq!(lru.peek(3).refs, 1);
}

#[test]
fn test_get() {
    let mut disk = numbered_disk(64);
    let mut table = HandleTable::new(SHARD_NUM, BLOCK_NUM);
    for i in 0..640u32 {
        assert!(table.get(i % 64, &mut disk));
        assert_eq!(table.peek(i % 64).data, [(i % 64) as u8; 512]);
        table.release(i % 64);
    }
}

#[test]
fn test_drop() {
    let mut disk = numbered_disk(64);
    let mut table = HandleTable::new(SHARD_NUM, BLOCK_NUM);
    for i in 0..32u32 {
        let b = (i * 4) % 64;
        assert!(table.get(b, &mut disk));
        assert_eq!(table.peek(b).refs, 1);
        assert_eq!(table.peek(b).data, [b as u8; 512]);
        table.release(b);
    }
}

#[test]
fn a_dirty_buffer_is_written_before_it_is_given_up() {
    let mut disk = numbered_disk(16);
    let mut lru = LruHandle::new(1);
    assert!(lru.get(4, &mut disk));
    lru.put(4, &[9u8; 512]);
    assert!(lru.peek(4).dirty);
    lru.release(4);
    assert!(lru.get(8, &mut disk));
    let mut raw = [0u8; 512];
    disk.dev.read_block(4, &mut raw);
    assert_eq!(raw, [9u8; 512]);
}

#[test]
fn a_buffer_overlays_values_on_its_bytes() {
    let mut b = BufferBlock::new();
    assert_eq!(b.id(), 0);
    let old = b.write(8, |v: &mut u32| {
        let old = *v;
        *v = 0x01020304;
        old
    });
    assert_eq!(old, 0);
    assert!(b.dirty);
    assert_eq!(&b.data[8..12], &[4, 3, 2, 1]);
    assert_eq!(b.read(8, |v: &u32| *v), 0x01020304);
    assert_eq!(b.read(9, |v: &u8| *v), 3);
}

#[test]
fn sync_write_reaches_the_device() {
    let mut disk = numbered_disk(8);
    let mut b = BufferBlock::init_block(5, &disk);
    b.sync_write(&mut disk, 0, |v: &mut u8| *v = 77);
    assert!(!b.dirty);
    let mut raw = [0u8; 512];
    disk.dev.read_block(5, &mut raw);
    assert_eq!(raw[0], 77);
    assert_eq!(raw[1], 5);
}
