//! A mounted volume: the device, the buffer cache, the log and the
//! superblock. The layers above read and write blocks through it. A write
//! is part of the open transaction: readers see it at once, and the device
//! gets it when the transaction commits.

use vstd::prelude::*;
use crate::buffer::HandleTable;
use crate::codec::Record;
use crate::fs::{image_wf, BLOCK_NUM, BlockDevice, Disk, DiskWrite, FsError, Image, SHARD_NUM};
use crate::log::{
    commit_writes, header_of, header_ok, recovered, recovery_writes, same_outside_log, LogManager,
};
use crate::superblock::SuperBlock;

verus! {

/// What the layers above see of a volume: the blocks as a reader sees
/// them, which blocks the open transaction holds, and for how many more it
/// has room.
#[verifier::ext_equal]
pub struct VolState {
    pub image: Image,
    pub logged: Set<u32>,
    pub room: int,
}

/// What writing `data` into block `b` does: the open transaction takes the
/// block in unless it holds it already, and fails, changing nothing, when
/// it would have to take it in and has no room.
pub open spec fn bwrite_spec(st: VolState, b: u32, data: Seq<u8>) -> (VolState, Result<
    (),
    FsError,
>) {
    if st.logged.contains(b) {
        (VolState { image: st.image.update(b as int, data), ..st }, Ok(()))
    } else if st.room <= 0 {
        (st, Err(FsError::LogFull))
    } else {
        (
            VolState {
                image: st.image.update(b as int, data),
                logged: st.logged.insert(b),
                room: st.room - 1,
            },
            Ok(()),
        )
    }
}

/// What reserving block `b` does: the open transaction takes the block in
/// as it is, unless it holds it already, and fails when it has no room.
pub open spec fn reserve_spec(st: VolState, b: u32) -> (VolState, Result<(), FsError>) {
    if st.logged.contains(b) {
        (st, Ok(()))
    } else if st.room <= 0 {
        (st, Err(FsError::LogFull))
    } else {
        (VolState { logged: st.logged.insert(b), room: st.room - 1, ..st }, Ok(()))
    }
}

/// Whether an image can be mounted: it has a superblock whose layout is in
/// order and lies inside the image, its log header names no blocks or can
/// be acted on, and recovery leaves the superblock as it is.
pub open spec fn mountable(img: Image) -> bool {
    let sb = SuperBlock::decode(img[1], 0);
    &&& 2 <= img.len()
    &&& sb.layout_ok()
    &&& sb.size <= img.len()
    &&& (header_of(img, sb.logstart as int).n == 0 || header_ok(
        header_of(img, sb.logstart as int),
        sb.logstart as int,
        sb.nlog as int,
        img.len() as int,
    ))
    &&& SuperBlock::decode(recovered(img, sb.logstart as int, sb.nlog as int)[1], 0) == sb
}

/// A mounted volume: the device, the buffer cache, the log and the
/// superblock.
pub struct Volume<D: BlockDevice> {
    pub disk: Disk<D>,
    pub cache: HandleTable,
    pub log: LogManager,
    pub sb: SuperBlock,
}

impl<D: BlockDevice> Volume<D> {
    /// The parts fit together: the superblock's layout is in order and lies
    /// inside the device, the log is where the superblock says, and the
    /// log, the cache and the device agree. Outside a transaction nothing
    /// is logged, and the superblock is never part of a transaction.
    pub open spec fn inv(&self) -> bool {
        &&& self.disk.wf()
        &&& self.sb.layout_ok()
        &&& self.sb.size <= self.disk.image().len()
        &&& self.log.inv(&self.cache, self.disk.image())
        &&& self.log.0.head == self.sb.logstart
        &&& self.log.0.size == self.sb.nlog
        &&& self.log.0.outstanding == 0 ==> self.log.0.lh.n == 0
        &&& SuperBlock::decode(self.disk.image()[1], 0) == self.sb
        &&& self.sb_apart()
        &&& self.cache.pool_size() == BLOCK_NUM
    }

    /// The superblock is no part of the open transaction.
    #[verifier::opaque]
    pub open spec fn sb_apart(&self) -> bool {
        !self.log.0.logged(1)
    }

    /// The blocks as a reader sees them: with what the open transaction
    /// has written.
    pub open spec fn image(&self) -> Image {
        self.cache.overlay(self.disk.image())
    }

    /// The blocks as the device holds them.
    pub open spec fn durable(&self) -> Image {
        self.disk.image()
    }

    /// An operation has begun and not ended.
    pub open spec fn in_txn(&self) -> bool {
        self.log.0.outstanding > 0
    }

    /// Block `b` is part of the open transaction.
    pub open spec fn logged(&self, b: u32) -> bool {
        self.log.0.logged(b)
    }

    /// The number of blocks that the open transaction can still take in.
    pub open spec fn room(&self) -> int {
        self.log.0.size - 1 - self.log.0.lh.n
    }

    /// What the layers above see of the volume.
    pub open spec fn state(&self) -> VolState {
        VolState {
            image: self.image(),
            logged: Set::new(|c: u32| self.logged(c)),
            room: self.room(),
        }
    }

    /// `self` came from `old` by reads and by writes inside the open
    /// transaction: the mount is the same and the device holds what it
    /// held.
    pub open spec fn stays(&self, old: &Volume<D>) -> bool {
        &&& self.sb == old.sb
        &&& self.disk.image() == old.disk.image()
        &&& self.disk.writes() == old.disk.writes()
        &&& self.log.0.outstanding == old.log.0.outstanding
        &&& self.image().len() == old.image().len()
    }

    /// `stays` carries over two steps.
    pub proof fn lemma_stays_trans(&self, mid: &Volume<D>, old: &Volume<D>)
        requires
            mid.stays(old),
            self.stays(mid),
        ensures
            self.stays(old),
    {
    }

    /// A volume stays what it is.
    pub proof fn lemma_stays_refl(&self)
        ensures
            self.stays(self),
    {
    }

    /// What mounting an image gives: the superblock is the image's, the
    /// device holds the image after recovery, a reader sees what the
    /// device holds, and the writes so far are those of recovery.
    pub open spec fn mount_result(img: Image, v: Volume<D>) -> bool {
        &&& v.sb == SuperBlock::decode(img[1], 0)
        &&& v.durable() == recovered(img, v.sb.logstart as int, v.sb.nlog as int)
        &&& v.image() == v.durable()
        &&& v.disk.writes() == recovery_writes(img, v.sb.logstart as int, v.sb.nlog as int)
    }

    /// Mounts the filesystem that the device holds: reads the superblock,
    /// checks the layout, runs recovery, and makes sure that the superblock
    /// is still the one that was read.
    pub fn mount(dev: D) -> (r: Result<Volume<D>, FsError>)
        requires
            image_wf(dev.image()),
        ensures
            r matches Ok(v) ==> v.inv() && !v.in_txn() && v.room() == v.sb.nlog - 1
                && Self::mount_result(dev.image(), v),
            r is Ok <==> mountable(dev.image()),
            r matches Err(e) ==> e == FsError::Corrupt,
    {
        proof {
            reveal(Volume::sb_apart);
        }
        let mut disk = Disk::new(dev);
        let mut cache = HandleTable::new(SHARD_NUM, BLOCK_NUM);
        let ghost img = disk.image();
        proof {
            assert(cache.agrees(img)) by {
                assert forall|k: int| 0 <= k < cache.handles@.len() implies crate::buffer::shard_ok(
                    (#[trigger] cache.handles@[k]).bufs@,
                    img,
                ) by {
                    let s = cache.handles@[k].bufs@;
                    assert(cache.handles@[k].wf());
                    assert forall|i: int| 0 <= i < s.len() implies {
                        &&& (#[trigger] s[i]).wf()
                        &&& s[i].loaded && !s[i].dirty ==> s[i].data@ == img[s[i].block_id as int]
                        &&& s[i].dirty ==> s[i].refs > 0
                    } by {
                        if s[i].loaded {
                            crate::buffer::lemma_slot_unique(s, s[i].block_id, i);
                            assert(cache.resident(s[i].block_id));
                        }
                    }
                }
            }
            assert(cache.ok(img));
            assert forall|b: int| 0 <= b < img.len() implies cache.overlay(img)[b] == img[b] by {
                assert(!cache.resident(b as u32));
            }
            assert(cache.overlay(img) =~= img);
        }
        let mut sb = SuperBlock::new();
        match sb.init(&mut cache, &mut disk) {
            Err(e) => {
                return Err(e);
            },
            Ok(()) => {},
        }
        let ghost c1 = cache;
        let mut log = LogManager::new();
        proof {
            assert forall|c: u32| #[trigger] cache.resident(c) implies cache.buf(c).refs == 0 by {
                if cache.buf(c).refs > 0 {
                    assert(false);
                }
            }
            assert(Seq::<DiskWrite>::empty() + recovery_writes(
                img,
                sb.logstart as int,
                sb.nlog as int,
            ) =~= recovery_writes(img, sb.logstart as int, sb.nlog as int));
        }
        match log.init(&sb, &mut cache, &mut disk) {
            Err(e) => {
                return Err(e);
            },
            Ok(()) => {},
        }
        proof {
            crate::log::lemma_recovered_len(img, sb.logstart as int, sb.nlog as int);
        }
        // recovery may have copied a block over the superblock
        let ghost c2 = cache;
        let mut again = SuperBlock::new();
        match again.init(&mut cache, &mut disk) {
            Err(e) => {
                return Err(e);
            },
            Ok(()) => {},
        }
        if again != sb {
            return Err(FsError::Corrupt);
        }
        proof {
            log.0.lemma_pins_settled(&c2, &cache);
        }
        Ok(Volume { disk, cache, log, sb })
    }

    /// Gives the device back. What an open transaction has written is
    /// lost: the device holds what the last commit left.
    pub fn unmount(self) -> (dev: D)
        requires
            self.inv(),
        ensures
            dev.image() == self.durable(),
            !self.in_txn() ==> dev.image() == self.image(),
    {
        proof {
            self.lemma_idle_image();
        }
        self.disk.into_inner()
    }

    /// Mounting what a clean unmount left gives the same filesystem. Take a
    /// volume outside a transaction. The image that its device holds can
    /// be mounted, and mounting it gives the superblock that the volume
    /// has and, block for block, what a reader of the volume sees.
    pub proof fn lemma_remount(&self)
        requires
            self.inv(),
            !self.in_txn(),
        ensures
            mountable(self.durable()),
            SuperBlock::decode(self.durable()[1], 0) == self.sb,
            recovered(self.durable(), self.sb.logstart as int, self.sb.nlog as int)
                == self.image(),
    {
        self.lemma_idle_image();
    }

    /// Outside a transaction a reader sees what the device holds.
    pub proof fn lemma_idle_image(&self)
        requires
            self.inv(),
        ensures
            !self.in_txn() ==> self.image() == self.durable(),
    {
        if !self.in_txn() {
            let img = self.disk.image();
            assert forall|b: int| 0 <= b < img.len() implies self.image()[b] == img[b] by {
                assert(!self.log.0.logged(b as u32));
                self.log.0.lemma_unlogged_clean(&self.cache, img, b as u32);
            }
            assert(self.image() =~= img);
        }
    }

    /// The bytes of block `b` as a reader sees them.
    pub fn bread(&mut self, b: u32) -> (data: [u8; 512])
        requires
            old(self).inv(),
            b < old(self).sb.size,
        ensures
            final(self).inv(),
            final(self).stays(old(self)),
            final(self).state() == old(self).state(),
            data@ == old(self).image()[b as int],
    {
        proof {
            reveal(Volume::sb_apart);
        }
        let data = self.log.read(&mut self.cache, &mut self.disk, b);
        proof {
            assert(self.state().logged =~= old(self).state().logged);
        }
        data
    }

    /// Whether block `b` is part of the open transaction.
    pub fn is_logged(&self, b: u32) -> (r: bool)
        requires
            self.inv(),
        ensures
            r == self.logged(b),
    {
        self.log.0.is_logged(b)
    }

    /// Puts `data` into block `b` as part of the open transaction. Fails,
    /// and changes nothing, if the transaction does not hold the block yet
    /// and has no room for it.
    pub fn bwrite(&mut self, b: u32, data: &[u8; 512]) -> (r: Result<(), FsError>)
        requires
            old(self).inv(),
            old(self).in_txn(),
            old(self).sb.inodestart <= b < old(self).sb.size,
        ensures
            final(self).inv(),
            final(self).stays(old(self)),
            (final(self).state(), r) == bwrite_spec(old(self).state(), b, data@),
    {
        proof {
            reveal(Volume::sb_apart);
        }
        let known = self.log.0.is_logged(b);
        if !known && self.log.0.lh.n >= self.log.0.size - 1 {
            return Err(FsError::LogFull);
        }
        self.log.write(&mut self.cache, &mut self.disk, b, data);
        proof {
            if known {
                assert(self.state().logged =~= old(self).state().logged);
            } else {
                assert(self.state().logged =~= old(self).state().logged.insert(b)) by {
                    assert forall|c: u32|
                        self.state().logged.contains(c) == old(self).state().logged.insert(
                            b,
                        ).contains(c) by {
                        if c != b {
                            assert(self.logged(c) == old(self).logged(c));
                        }
                    }
                }
            }
        }
        Ok(())
    }

    /// Makes block `b` part of the open transaction without changing it,
    /// so that a later write to it cannot fail for want of room.
    pub fn reserve(&mut self, b: u32) -> (r: Result<(), FsError>)
        requires
            old(self).inv(),
            old(self).in_txn(),
            old(self).sb.inodestart <= b < old(self).sb.size,
        ensures
            final(self).inv(),
            final(self).stays(old(self)),
            (final(self).state(), r) == reserve_spec(old(self).state(), b),
            r is Ok ==> final(self).logged(b),
    {
        proof {
            reveal(Volume::sb_apart);
        }
        let data = self.bread(b);
        let ghost v1 = *self;
        let r = self.bwrite(b, &data);
        proof {
            self.lemma_stays_trans(&v1, old(self));
            assert(old(self).image().update(b as int, data@) =~= old(self).image());
            if r is Ok {
                assert(self.state().logged.contains(b));
            }
        }
        r
    }

    /// Begins an operation if it may begin now; see `LogManager::log_begin`.
    pub fn log_begin(&mut self) -> (admitted: bool)
        requires
            old(self).inv(),
        ensures
            final(self).inv(),
            admitted == old(self).log.admits(),
            admitted ==> final(self).log.0.outstanding == old(self).log.0.outstanding + 1
                && final(self).room() >= crate::fs::MAXOPBLOCKS,
            !admitted ==> final(self).log.0.outstanding == old(self).log.0.outstanding,
            final(self).sb == old(self).sb,
            final(self).image() == old(self).image(),
            final(self).durable() == old(self).durable(),
            final(self).disk.writes() == old(self).disk.writes(),
            final(self).state() == old(self).state(),
    {
        proof {
            reveal(Volume::sb_apart);
        }
        let admitted = self.log.log_begin();
        proof {
            assert(self.log.0.pins_ok(&self.cache)) by {
                assert(old(self).log.0.pins_ok(&self.cache));
                assert forall|c: u32| self.log.0.logged(c) == old(self).log.0.logged(c) by {}
            }
            assert(self.state().logged =~= old(self).state().logged);
        }
        admitted
    }

    /// Ends an operation; the last one of the group to end commits, which
    /// makes what the group has written durable.
    pub fn log_end(&mut self)
        requires
            old(self).inv(),
            old(self).in_txn(),
        ensures
            final(self).inv(),
            final(self).sb == old(self).sb,
            final(self).log.0.outstanding == old(self).log.0.outstanding - 1,
            same_outside_log(
                final(self).image(),
                old(self).image(),
                old(self).sb.logstart as int,
                old(self).sb.nlog as int,
            ),
            final(self).in_txn() ==> final(self).durable() == old(self).durable() && final(self).disk.writes() == old(self).disk.writes() && final(self).state() == old(self).state(),
            !final(self).in_txn() ==> {
                &&& final(self).durable() == final(self).image()
                &&& final(self).room() == old(self).sb.nlog - 1
                &&& final(self).disk.writes() == old(self).disk.writes() + commit_writes(
                    old(self).durable(),
                    old(self).sb.logstart as int,
                    old(self).log.0.lh@,
                    old(self).log.0.datas(&old(self).cache),
                )
            },
    {
        proof {
            reveal(Volume::sb_apart);
        }
        proof {
            old(self).log.0.lemma_unlogged_clean(&old(self).cache, old(self).disk.image(), 1);
        }
        self.log.log_end(&mut self.cache, &mut self.disk);
        proof {
            if self.in_txn() {
                assert(self.state().logged =~= old(self).state().logged);
            }
        }
    }

    /// The number of blocks that the open transaction can still take in.
    pub fn log_room(&self) -> (n: u32)
        requires
            self.inv(),
        ensures
            n == self.room(),
    {
        self.log.0.size - 1 - self.log.0.lh.n
    }
}

} // verus!
