//! The write-ahead log. The blocks that a transaction changes stay in the
//! cache, held by the log, until the last operation of the group ends. The
//! commit then copies them to the log body, writes the header that names
//! their homes (the commit point), copies them home, and clears the header.
//! Recovery copies home whatever a header names.

use vstd::prelude::*;
use crate::buffer::{pin_count, pinned, unpinned, BufferBlock, HandleTable};
use crate::codec::{
    le32, le32_seq, lemma_le32_put32, lemma_le32_same, lemma_le32_seq_put32_seq,
    lemma_put32_seq_frame, load_words, put32, put32_seq, read_u32, store_words, write_u32, Record,
};
use crate::fs::{
    apply_writes, image_wf, BlockDevice, Disk, DiskWrite, FsError, Image, LOGSIZE, MAXOPBLOCKS,
};
use crate::superblock::SuperBlock;
use crate::volume::{bwrite_spec, Volume};

verus! {

/// Contents of the log header block: the number of logged blocks and the
/// home of each. The same value keeps track in memory of the blocks of the
/// transaction that is open.
#[derive(Clone, Copy, Debug)]
pub struct LogHeader {
    pub n: u32,
    pub block: [u32; 64],
}

/// A log header as a value of mathematics.
pub struct LogHeaderView {
    pub n: u32,
    pub block: Seq<u32>,
}

impl View for LogHeader {
    type V = LogHeaderView;

    open spec fn view(&self) -> LogHeaderView {
        LogHeaderView { n: self.n, block: self.block@ }
    }
}

impl LogHeader {
    /// A header that names no block.
    pub fn new() -> (h: LogHeader)
        ensures
            h.n == 0,
            forall|i: int| 0 <= i < 64 ==> h.block@[i] == 0,
    {
        LogHeader { n: 0, block: [0u32; 64] }
    }
}

impl Record for LogHeader {
    open spec fn size() -> nat {
        260
    }

    open spec fn decode(s: Seq<u8>, off: int) -> LogHeaderView {
        LogHeaderView { n: le32(s, off), block: le32_seq(s, off + 4, 64) }
    }

    open spec fn encode(v: LogHeaderView, s: Seq<u8>, off: int) -> Seq<u8> {
        put32_seq(put32(s, off, v.n), off + 4, v.block)
    }

    open spec fn valid(v: LogHeaderView) -> bool {
        v.block.len() == 64
    }

    proof fn lemma_codec(v: LogHeaderView, s: Seq<u8>, off: int) {
        let s1 = put32(s, off, v.n);
        let s2 = put32_seq(s1, off + 4, v.block);
        lemma_le32_put32(s, off, v.n);
        lemma_put32_seq_frame(s1, off + 4, v.block);
        lemma_le32_seq_put32_seq(s1, off + 4, v.block);
        lemma_le32_same(s2, s1, off);
        assert(Self::decode(s2, off).block == v.block);
    }

    fn byte_len() -> (n: usize) {
        260
    }

    fn load(buf: &[u8], off: usize) -> (r: LogHeader) {
        let total = buf.len();
        assert(off + 260 <= total);
        let n = read_u32(buf, off);
        let mut block = [0u32; 64];
        load_words(buf, off + 4, &mut block);
        LogHeader { n, block }
    }

    fn store(&self, buf: &mut [u8], off: usize) {
        let total = buf.len();
        assert(off + 260 <= total);
        write_u32(buf, off, self.n);
        store_words(&self.block, buf, off + 4);
    }
}

/// Block `b` is one of the `size` blocks of the log, which starts at `head`.
pub open spec fn in_log(b: int, head: int, size: int) -> bool {
    head <= b < head + size
}

/// The header can be acted on: it names no more blocks than the log body
/// has, and each home is a block of the image that is no block of the log.
pub open spec fn header_ok(h: LogHeaderView, head: int, size: int, len: int) -> bool {
    &&& h.block.len() == 64
    &&& h.n <= size - 1
    &&& h.n <= 64
    &&& forall|i: int|
        0 <= i < h.n ==> (#[trigger] h.block[i]) < len && !in_log(h.block[i] as int, head, size)
}

/// The header names no home twice.
pub open spec fn header_distinct(h: LogHeaderView) -> bool {
    forall|i: int, j: int| 0 <= i < j < h.n ==> #[trigger] h.block[i] != #[trigger] h.block[j]
}

/// The image after the first `k` blocks of the log body were copied to the
/// homes that `dst` names.
pub open spec fn installed(img: Image, head: int, dst: Seq<u32>, k: int) -> Image
    decreases k,
{
    if k <= 0 {
        img
    } else {
        installed(img, head, dst, k - 1).update(dst[k - 1] as int, img[head + k])
    }
}

/// The header that the header block of the image holds.
pub open spec fn header_of(img: Image, head: int) -> LogHeaderView {
    LogHeader::decode(img[head], 0)
}

/// The header block with its count set to zero.
pub open spec fn cleared(blk: Seq<u8>) -> Seq<u8> {
    LogHeader::encode(LogHeaderView { n: 0, block: LogHeader::decode(blk, 0).block }, blk, 0)
}

/// The image after recovery. Where the header names no block, or cannot be
/// acted on, the image stays as it is. Else every block that the header
/// names is copied home and the header's count is set to zero.
pub open spec fn recovered(img: Image, head: int, size: int) -> Image {
    let h = header_of(img, head);
    if h.n == 0 || !header_ok(h, head, size, img.len() as int) {
        img
    } else {
        installed(img, head, h.block, h.n as int).update(head, cleared(img[head]))
    }
}

/// The writes that recovery makes.
pub open spec fn recovery_writes(img: Image, head: int, size: int) -> Seq<DiskWrite> {
    let h = header_of(img, head);
    if h.n == 0 || !header_ok(h, head, size, img.len() as int) {
        Seq::empty()
    } else {
        Seq::new(h.n as nat, |i: int| (h.block[i] as int, img[head + 1 + i])).push(
            (head, cleared(img[head])),
        )
    }
}

/// The writes that a commit makes, in order: each logged block's bytes to
/// the log body, the header, each logged block's bytes to its home, the
/// header with its count set to zero. A commit of nothing writes nothing.
pub open spec fn commit_writes(
    img: Image,
    head: int,
    h: LogHeaderView,
    datas: Seq<Seq<u8>>,
) -> Seq<DiskWrite> {
    if h.n == 0 {
        Seq::empty()
    } else {
        let hb = LogHeader::encode(h, img[head], 0);
        Seq::new(h.n as nat, |i: int| (head + 1 + i, datas[i])).push((head, hb)) + Seq::new(
            h.n as nat,
            |i: int| (h.block[i] as int, datas[i]),
        ).push((head, cleared(hb)))
    }
}

/// Two images hold the same in every block that is not part of the log.
pub open spec fn same_outside_log(a: Image, b: Image, head: int, size: int) -> bool {
    &&& a.len() == b.len()
    &&& forall|i: int| 0 <= i < a.len() && !in_log(i, head, size) ==> a[i] == b[i]
}

/// The image with each block that `dst` names replaced by the bytes that
/// `datas` gives for it.
pub open spec fn with_homes(img: Image, dst: Seq<u32>, datas: Seq<Seq<u8>>, k: int) -> Image
    decreases k,
{
    if k <= 0 {
        img
    } else {
        with_homes(img, dst, datas, k - 1).update(dst[k - 1] as int, datas[k - 1])
    }
}

/// The log in memory.
pub struct Log {
    /// The block of the log header; the log body follows it.
    pub head: u32,
    /// The number of blocks of the log, the header among them.
    pub size: u32,
    /// The number of operations that have begun and not ended.
    pub outstanding: u32,
    /// A commit is under way.
    pub committing: bool,
    /// The blocks of the transaction that is open.
    pub lh: LogHeader,
}

impl Log {
    /// The log lies inside an image of `len` blocks, and its header names
    /// each block once and can be acted on.
    pub open spec fn wf_for(&self, len: int) -> bool {
        &&& 2 <= self.size <= LOGSIZE
        &&& self.head + self.size <= len
        &&& header_ok(self.lh@, self.head as int, self.size as int, len)
        &&& header_distinct(self.lh@)
    }

    /// Block `b` is part of the transaction that is open.
    pub open spec fn logged(&self, b: u32) -> bool {
        exists|i: int| 0 <= i < self.lh.n && #[trigger] self.lh.block@[i] == b
    }

    /// A buffer is held if and only if its block is logged, and then once;
    /// the cache holds every logged block; and a shard has more buffers
    /// than the log body has blocks.
    pub open spec fn pins_ok(&self, cache: &HandleTable) -> bool {
        &&& forall|c: u32|
            #[trigger] cache.resident(c) ==> (cache.buf(c).refs > 0 <==> self.logged(c))
                && cache.buf(c).refs <= 1
        &&& forall|j: int| 0 <= j < self.lh.n ==> cache.resident(#[trigger] self.lh.block@[j])
        &&& forall|k: int|
            0 <= k < cache.handles@.len() ==> pin_count((#[trigger] cache.handles@[k]).bufs@)
                <= self.lh.n && self.size - 1 < cache.handles@[k].bufs@.len()
    }

    /// The log, the cache and the image fit together, and the image holds
    /// no transaction that waits to be copied home.
    pub open spec fn inv(&self, cache: &HandleTable, img: Image) -> bool {
        &&& image_wf(img)
        &&& self.wf_for(img.len() as int)
        &&& !self.committing
        &&& cache.wf()
        &&& cache.within(img)
        &&& cache.agrees(img)
        &&& self.pins_ok(cache)
        &&& header_of(img, self.head as int).n == 0
    }

    /// The bytes of each logged block as the cache holds them.
    pub open spec fn datas(&self, cache: &HandleTable) -> Seq<Seq<u8>> {
        Seq::new(self.lh.n as nat, |i: int| cache.buf(self.lh.block@[i]).data@)
    }

    /// The number of blocks that the log body can still take.
    pub open spec fn room(&self) -> int {
        self.size - 1 - self.lh.n
    }

    /// While the log has room for a block, every shard of the cache has a
    /// buffer that nobody holds.
    pub proof fn lemma_pins_roomy(&self, cache: &HandleTable)
        requires
            self.pins_ok(cache),
            self.lh.n <= self.size - 1,
        ensures
            cache.roomy(),
    {
    }

    /// The blocks of the log stay held through work on the cache that left
    /// no handle behind.
    pub proof fn lemma_pins_settled(&self, old: &HandleTable, new: &HandleTable)
        requires
            self.pins_ok(old),
            new.settled(old),
        ensures
            self.pins_ok(new),
    {
        assert forall|c: u32| #[trigger] new.resident(c) implies (new.buf(c).refs > 0
            <==> self.logged(c)) && new.buf(c).refs <= 1 by {
            if new.buf(c).refs > 0 {
                assert(old.resident(c));
            }
            if self.logged(c) {
                let j = choose|j: int| 0 <= j < self.lh.n && #[trigger] self.lh.block@[j] == c;
                assert(old.resident(self.lh.block@[j]));
                assert(old.buf(c).refs > 0);
            }
        }
        assert forall|j: int| 0 <= j < self.lh.n implies new.resident(
            #[trigger] self.lh.block@[j],
        ) by {
            let c = self.lh.block@[j];
            assert(old.resident(c));
            assert(self.logged(c));
        }
        assert forall|k: int| 0 <= k < new.handles@.len() implies pin_count(
            (#[trigger] new.handles@[k]).bufs@,
        ) <= self.lh.n && self.size - 1 < new.handles@[k].bufs@.len() by {
            assert(pin_count(old.handles@[k].bufs@) <= self.lh.n);
        }
    }

    /// Whether block `b` is part of the transaction that is open.
    pub fn is_logged(&self, b: u32) -> (r: bool)
        requires
            self.lh.n <= 64,
        ensures
            r == self.logged(b),
    {
        let n = self.lh.n;
        let mut i: u32 = 0;
        while i < n
            invariant
                i <= n,
                n == self.lh.n,
                n <= 64,
                forall|j: int| 0 <= j < i ==> self.lh.block@[j] != b,
            decreases n - i,
        {
            if self.lh.block[i as usize] == b {
                return true;
            }
            i = i + 1;
        }
        false
    }

    /// A log that is not set up yet; see `init`.
    pub fn new() -> (log: Log)
        ensures
            log.head == 0,
            log.size == 0,
            log.outstanding == 0,
            !log.committing,
            log.lh.n == 0,
            forall|i: int| 0 <= i < 64 ==> log.lh.block@[i] == 0,
    {
        Log { head: 0, size: 0, outstanding: 0, committing: false, lh: LogHeader::new() }
    }

    /// Reads the header from the header block.
    pub fn read_head<D: BlockDevice>(&mut self, cache: &mut HandleTable, disk: &mut Disk<D>)
        requires
            old(cache).ok(old(disk).image()),
            old(disk).wf(),
            old(self).head < old(disk).image().len(),
        ensures
            final(self).lh@ == LogHeader::decode(
                old(cache).overlay(old(disk).image())[old(self).head as int],
                0,
            ),
            final(self).head == old(self).head,
            final(self).size == old(self).size,
            final(self).outstanding == old(self).outstanding,
            final(self).committing == old(self).committing,
            final(cache).ok(final(disk).image()),
            final(cache).touched(old(cache), old(self).head),
            final(cache).overlay(final(disk).image()) == old(cache).overlay(old(disk).image()),
            final(disk).wf(),
            final(disk).image() == old(disk).image(),
            final(disk).writes() == old(disk).writes(),
    {
        proof {
            cache.lemma_roomy_has_room(self.head);
        }
        let blk = cache.read_block(self.head, disk);
        self.lh = LogHeader::load(&blk, 0);
    }

    /// Writes the header into the header block, on the device.
    pub fn write_head<D: BlockDevice>(&self, cache: &mut HandleTable, disk: &mut Disk<D>)
        requires
            old(cache).ok(old(disk).image()),
            old(disk).wf(),
            self.head < old(disk).image().len(),
        ensures
            final(cache).ok(final(disk).image()),
            final(cache).touched(old(cache), self.head),
            final(disk).wf(),
            final(disk).image() == old(disk).image().update(
                self.head as int,
                LogHeader::encode(
                    self.lh@,
                    old(cache).overlay(old(disk).image())[self.head as int],
                    0,
                ),
            ),
            final(disk).writes() == old(disk).writes().push(
                (
                    self.head as int,
                    LogHeader::encode(
                        self.lh@,
                        old(cache).overlay(old(disk).image())[self.head as int],
                        0,
                    ),
                ),
            ),
            final(cache).overlay(final(disk).image()) == old(cache).overlay(
                old(disk).image(),
            ).update(
                self.head as int,
                LogHeader::encode(
                    self.lh@,
                    old(cache).overlay(old(disk).image())[self.head as int],
                    0,
                ),
            ),
    {
        proof {
            cache.lemma_roomy_has_room(self.head);
        }
        let mut blk = cache.read_block(self.head, disk);
        let ghost mid = *cache;
        self.lh.store(&mut blk, 0);
        proof {
            cache.lemma_roomy_has_room(self.head);
        }
        cache.write_through(self.head, &blk, disk);
        proof {
            cache.lemma_touched_trans(&mid, old(cache), self.head);
        }
    }
}

/// The image with the first `k` blocks of the log body replaced by `datas`.
pub open spec fn with_body(img: Image, head: int, datas: Seq<Seq<u8>>, k: int) -> Image {
    Seq::new(
        img.len(),
        |b: int|
            if head + 1 <= b < head + 1 + k {
                datas[b - head - 1]
            } else {
                img[b]
            },
    )
}

impl Log {
    /// Copies each logged block from the cache to its block of the log
    /// body, on the device.
    pub fn write_log<D: BlockDevice>(&self, cache: &mut HandleTable, disk: &mut Disk<D>)
        requires
            old(cache).ok(old(disk).image()),
            old(disk).wf(),
            self.wf_for(old(disk).image().len() as int),
            forall|j: int|
                0 <= j < self.lh.n ==> old(cache).resident(#[trigger] self.lh.block@[j]) && old(
                    cache,
                ).buf(self.lh.block@[j]).refs > 0,
        ensures
            final(cache).ok(final(disk).image()),
            final(cache).settled(old(cache)),
            final(disk).wf(),
            final(disk).image() == with_body(
                old(disk).image(),
                self.head as int,
                self.datas(old(cache)),
                self.lh.n as int,
            ),
            final(cache).overlay(final(disk).image()) == with_body(
                old(cache).overlay(old(disk).image()),
                self.head as int,
                self.datas(old(cache)),
                self.lh.n as int,
            ),
            final(disk).writes() == old(disk).writes() + Seq::new(
                self.lh.n as nat,
                |i: int| (self.head + 1 + i, self.datas(old(cache))[i]),
            ),
            forall|j: int|
                0 <= j < self.lh.n ==> final(cache).resident(#[trigger] self.lh.block@[j])
                    && final(cache).buf(self.lh.block@[j]) == old(cache).buf(self.lh.block@[j]),
    {
        let ghost img0 = disk.image();
        let ghost ov0 = cache.overlay(img0);
        let ghost w0 = disk.writes();
        let ghost datas = self.datas(old(cache));
        let ghost head = self.head as int;
        let n = self.lh.n;
        let mut i: u32 = 0;
        proof {
            assert(disk.image() =~= with_body(img0, head, datas, 0));
            assert(ov0 =~= with_body(ov0, head, datas, 0));
            assert(w0 =~= w0 + Seq::new(0nat, |i: int| (head + 1 + i, datas[i])));
            cache.lemma_settled_refl();
        }
        while i < n
            invariant
                i <= n,
                n == self.lh.n,
                head == self.head,
                datas == self.datas(old(cache)),
                img0 == old(disk).image(),
                image_wf(img0),
                old(cache).wf(),
                self.wf_for(img0.len() as int),
                cache.ok(disk.image()),
                cache.settled(old(cache)),
                disk.wf(),
                disk.image() == with_body(img0, head, datas, i as int),
                cache.overlay(disk.image()) == with_body(ov0, head, datas, i as int),
                disk.writes() == w0 + Seq::new(i as nat, |j: int| (head + 1 + j, datas[j])),
                forall|j: int|
                    0 <= j < n ==> cache.resident(#[trigger] self.lh.block@[j]) && cache.buf(
                        self.lh.block@[j],
                    ) == old(cache).buf(self.lh.block@[j]) && cache.buf(self.lh.block@[j]).refs
                        > 0,
            decreases n - i,
        {
            let b = self.lh.block[i as usize];
            let ghost c0 = *cache;
            let ghost img = disk.image();
            assert(cache.resident(self.lh.block@[i as int]));
            let data = cache.peek(b).data;
            let target = self.head + 1 + i;
            proof {
                cache.lemma_roomy_has_room(target);
            }
            cache.write_through(target, &data, disk);
            proof {
                cache.lemma_touched_settled(&c0, target);
                cache.lemma_settled_trans(&c0, old(cache));
                assert(data@ == datas[i as int]);
                assert(disk.image() =~= with_body(img0, head, datas, i + 1));
                assert(cache.overlay(disk.image()) =~= with_body(ov0, head, datas, i + 1));
                assert(disk.writes() =~= w0 + Seq::new(
                    (i + 1) as nat,
                    |j: int| (head + 1 + j, datas[j]),
                ));
                assert forall|j: int| 0 <= j < n implies cache.resident(
                    #[trigger] self.lh.block@[j],
                ) && cache.buf(self.lh.block@[j]) == c0.buf(self.lh.block@[j]) by {
                    let c = self.lh.block@[j];
                    assert(!in_log(c as int, head, self.size as int));
                    assert(c != target);
                    assert(c0.resident(c) && c0.buf(c).refs > 0);
                }
            }
            i = i + 1;
        }
    }
}

/// What copying the first `k` logged blocks home does to an image: a block
/// that the header names holds what its block of the log body held, and
/// every other block is as it was.
pub proof fn lemma_installed(img: Image, head: int, size: int, h: LogHeaderView, k: int)
    requires
        header_ok(h, head, size, img.len() as int),
        header_distinct(h),
        0 <= head,
        head + size <= img.len(),
        0 <= k <= h.n,
    ensures
        installed(img, head, h.block, k).len() == img.len(),
        forall|j: int|
            0 <= j < k ==> installed(img, head, h.block, k)[(#[trigger] h.block[j]) as int] == img[head
                + 1 + j],
        forall|b: int|
            0 <= b < img.len() && (forall|j: int| 0 <= j < k ==> h.block[j] != b) ==> (
            #[trigger] installed(img, head, h.block, k)[b]) == img[b],
    decreases k,
{
    if k > 0 {
        lemma_installed(img, head, size, h, k - 1);
        let prev = installed(img, head, h.block, k - 1);
        let cur = installed(img, head, h.block, k);
        assert(cur == prev.update(h.block[k - 1] as int, img[head + k]));
        assert forall|j: int| 0 <= j < k implies cur[(#[trigger] h.block[j]) as int] == img[head
            + 1 + j] by {
            if j < k - 1 {
                assert(h.block[j] != h.block[k - 1]);
            }
        }
        assert forall|b: int|
            0 <= b < img.len() && (forall|j: int| 0 <= j < k ==> h.block[j] != b) implies (
        #[trigger] cur[b]) == img[b] by {
            assert(h.block[k - 1] != b);
            assert(forall|j: int| 0 <= j < k - 1 ==> h.block[j] != b);
        }
    }
}

/// Copying logged blocks home leaves the blocks of the log as they were.
pub proof fn lemma_installed_log(img: Image, head: int, size: int, h: LogHeaderView, k: int)
    requires
        header_ok(h, head, size, img.len() as int),
        0 <= head,
        head + size <= img.len(),
        0 <= k <= h.n,
    ensures
        installed(img, head, h.block, k).len() == img.len(),
        forall|b: int|
            head <= b < head + size ==> (#[trigger] installed(img, head, h.block, k)[b]) == img[b],
        image_wf(img) ==> image_wf(installed(img, head, h.block, k)),
    decreases k,
{
    if k > 0 {
        lemma_installed_log(img, head, size, h, k - 1);
        assert(!in_log(h.block[k - 1] as int, head, size));
    }
}

impl Log {
    /// Copies each block of the log body that the header names to its home,
    /// in the cache and on the device.
    pub fn install_commit<D: BlockDevice>(&self, cache: &mut HandleTable, disk: &mut Disk<D>)
        requires
            old(cache).ok(old(disk).image()),
            old(disk).wf(),
            2 <= self.size <= LOGSIZE,
            self.head + self.size <= old(disk).image().len(),
            header_ok(
                self.lh@,
                self.head as int,
                self.size as int,
                old(disk).image().len() as int,
            ),
            forall|i: int|
                0 <= i < self.lh.n ==> old(cache).overlay(old(disk).image())[self.head + 1 + i]
                    == #[trigger] old(disk).image()[self.head + 1 + i],
        ensures
            final(cache).ok(final(disk).image()),
            final(cache).settled(old(cache)),
            final(disk).wf(),
            final(disk).image() == installed(
                old(disk).image(),
                self.head as int,
                self.lh.block@,
                self.lh.n as int,
            ),
            final(cache).overlay(final(disk).image()) == installed(
                old(cache).overlay(old(disk).image()),
                self.head as int,
                self.lh.block@,
                self.lh.n as int,
            ),
            final(disk).writes() == old(disk).writes() + Seq::new(
                self.lh.n as nat,
                |i: int| (self.lh.block@[i] as int, old(disk).image()[self.head + 1 + i]),
            ),
            forall|j: int|
                0 <= j < self.lh.n && final(cache).resident(#[trigger] self.lh.block@[j])
                    ==> !final(cache).buf(self.lh.block@[j]).dirty,
    {
        let ghost img0 = disk.image();
        let ghost ov0 = cache.overlay(img0);
        let ghost w0 = disk.writes();
        let ghost head = self.head as int;
        let ghost size = self.size as int;
        let ghost dst = self.lh.block@;
        let n = self.lh.n;
        let mut i: u32 = 0;
        proof {
            assert(w0 =~= w0 + Seq::new(0nat, |j: int| (dst[j] as int, img0[head + 1 + j])));
            cache.lemma_settled_refl();
            assert(ov0.len() == img0.len());
        }
        while i < n
            invariant
                i <= n,
                n == self.lh.n,
                head == self.head,
                size == self.size,
                dst == self.lh.block@,
                2 <= size <= LOGSIZE,
                head + size <= img0.len(),
                image_wf(img0),
                ov0.len() == img0.len(),
                header_ok(self.lh@, head, size, img0.len() as int),
                forall|j: int| 0 <= j < n ==> ov0[head + 1 + j] == #[trigger] img0[head + 1 + j],
                cache.ok(disk.image()),
                cache.settled(old(cache)),
                disk.wf(),
                disk.image() == installed(img0, head, dst, i as int),
                cache.overlay(disk.image()) == installed(ov0, head, dst, i as int),
                disk.writes() == w0 + Seq::new(
                    i as nat,
                    |j: int| (dst[j] as int, img0[head + 1 + j]),
                ),
                forall|j: int|
                    0 <= j < i && cache.resident(#[trigger] dst[j]) ==> !cache.buf(dst[j]).dirty,
            decreases n - i,
        {
            let ghost c0 = *cache;
            let ghost img = disk.image();
            let src = self.head + 1 + i;
            let b = self.lh.block[i as usize];
            proof {
                lemma_installed_log(img0, head, size, self.lh@, i as int);
                lemma_installed_log(ov0, head, size, self.lh@, i as int);
                assert(in_log(src as int, head, size));
                cache.lemma_roomy_has_room(src);
                assert(dst[i as int] < img0.len());
            }
            let data = cache.read_block(src, disk);
            let ghost c1 = *cache;
            proof {
                assert(data@ == img0[head + 1 + i]);
                cache.lemma_roomy_has_room(b);
            }
            cache.write_through(b, &data, disk);
            proof {
                c1.lemma_touched_settled(&c0, src);
                cache.lemma_touched_settled(&c1, b);
                cache.lemma_settled_trans(&c1, &c0);
                cache.lemma_settled_trans(&c0, old(cache));
                assert(disk.writes() =~= w0 + Seq::new(
                    (i + 1) as nat,
                    |j: int| (dst[j] as int, img0[head + 1 + j]),
                ));
                assert forall|j: int| 0 <= j < i + 1 && cache.resident(
                    #[trigger] dst[j],
                ) implies !cache.buf(dst[j]).dirty by {
                    let c = dst[j];
                    if c != b {
                        assert(!in_log(c as int, head, size));
                        assert(c != src);
                        assert(c1.resident(c) && cache.buf(c) == c1.buf(c));
                        assert(c0.resident(c) && c1.buf(c) == c0.buf(c));
                    }
                }
            }
            i = i + 1;
        }
    }

    /// Gives back the handle that the log holds on each logged block.
    fn unpin_all(&self, cache: &mut HandleTable, Ghost(img): Ghost<Image>)
        requires
            old(cache).wf(),
            old(cache).within(img),
            old(cache).agrees(img),
            image_wf(img),
            header_distinct(self.lh@),
            self.lh.n <= 64,
            forall|j: int|
                0 <= j < self.lh.n ==> old(cache).resident(#[trigger] self.lh.block@[j]) && old(
                    cache,
                ).buf(self.lh.block@[j]).refs == 1 && !old(cache).buf(self.lh.block@[j]).dirty
                    && self.lh.block@[j] < img.len(),
            forall|c: u32|
                #[trigger] old(cache).resident(c) && old(cache).buf(c).refs > 0 ==> self.logged(c),
        ensures
            final(cache).wf(),
            final(cache).within(img),
            final(cache).agrees(img),
            final(cache).overlay(img) == old(cache).overlay(img),
            final(cache).handles@.len() == old(cache).handles@.len(),
            forall|k: int|
                0 <= k < final(cache).handles@.len() ==> (
                #[trigger] final(cache).handles@[k]).bufs@.len() == old(
                    cache,
                ).handles@[k].bufs@.len(),
            forall|c: u32| #[trigger] final(cache).resident(c) ==> final(cache).buf(c).refs == 0,
            final(cache).pool_size() == old(cache).pool_size(),
    {
        let n = self.lh.n;
        let ghost dst = self.lh.block@;
        let mut i: u32 = 0;
        while i < n
            invariant
                i <= n,
                n == self.lh.n,
                n <= 64,
                dst == self.lh.block@,
                image_wf(img),
                header_distinct(self.lh@),
                cache.wf(),
                cache.within(img),
                cache.agrees(img),
                cache.overlay(img) == old(cache).overlay(img),
                cache.handles@.len() == old(cache).handles@.len(),
                forall|k: int|
                    0 <= k < cache.handles@.len() ==> (#[trigger] cache.handles@[k]).bufs@.len()
                        == old(cache).handles@[k].bufs@.len(),
                forall|j: int|
                    i <= j < n ==> cache.resident(#[trigger] dst[j]) && cache.buf(dst[j]).refs
                        == 1 && !cache.buf(dst[j]).dirty && dst[j] < img.len(),
                forall|c: u32|
                    #[trigger] cache.resident(c) && cache.buf(c).refs > 0 ==> exists|j: int|
                        i <= j < n && dst[j] == c,
            decreases n - i,
        {
            let b = self.lh.block[i as usize];
            let ghost c0 = *cache;
            assert(cache.resident(dst[i as int]));
            cache.release(b);
            proof {
                let x = crate::buffer::unpinned(c0.buf(b));
                cache.lemma_update(&c0, b, x);
                cache.lemma_kept_after_update(&c0, b, x);
                cache.lemma_agrees_after_update(&c0, b, x, img, img);
                cache.lemma_overlay_after_update(&c0, b, x, img, img);
                cache.lemma_within_after_update(&c0, b, x, img);
                assert(c0.overlay(img).update(b as int, x.data@) =~= c0.overlay(img));
                assert forall|j: int| i + 1 <= j < n implies cache.resident(#[trigger] dst[j])
                    && cache.buf(dst[j]).refs == 1 && !cache.buf(dst[j]).dirty && dst[j]
                    < img.len() by {
                    assert(self.lh@.block[i as int] != self.lh@.block[j]);
                    assert(c0.resident(dst[j]));
                    assert(cache.resident(dst[j]) == c0.resident(dst[j]));
                }
                assert forall|c: u32| #[trigger]
                    cache.resident(c) && cache.buf(c).refs > 0 implies exists|j: int|
                    i + 1 <= j < n && dst[j] == c by {
                    assert(cache.resident(c) == c0.resident(c));
                    assert(c != b);
                    assert(cache.buf(c) == c0.buf(c));
                    let j = choose|j: int| i <= j < n && dst[j] == c;
                    assert(j != i);
                }
            }
            i = i + 1;
        }
        proof {
            assert forall|c: u32| #[trigger] cache.resident(c) implies cache.buf(c).refs == 0 by {
                if cache.buf(c).refs > 0 {
                    let j = choose|j: int| n <= j < n && dst[j] == c;
                }
            }
            cache.lemma_same_shape(old(cache));
        }
    }
}

impl Log {
    /// A block that is not logged reads as the image has it.
    pub proof fn lemma_unlogged_clean(&self, cache: &HandleTable, img: Image, b: u32)
        requires
            self.inv(cache, img),
            b < img.len(),
            !self.logged(b),
        ensures
            cache.overlay(img)[b as int] == img[b as int],
    {
        cache.lemma_overlay_clean(img, b);
    }

    /// The first half of a commit: the logged blocks go to the log body and
    /// then the header is written, which is the commit point.
    fn stage<D: BlockDevice>(&self, cache: &mut HandleTable, disk: &mut Disk<D>)
        requires
            self.inv(old(cache), old(disk).image()),
            old(disk).wf(),
        ensures
            final(cache).ok(final(disk).image()),
            final(cache).settled(old(cache)),
            final(disk).wf(),
            final(disk).image() == with_body(
                old(disk).image(),
                self.head as int,
                self.datas(old(cache)),
                self.lh.n as int,
            ).update(
                self.head as int,
                LogHeader::encode(self.lh@, old(disk).image()[self.head as int], 0),
            ),
            final(cache).overlay(final(disk).image()) == with_body(
                old(cache).overlay(old(disk).image()),
                self.head as int,
                self.datas(old(cache)),
                self.lh.n as int,
            ).update(
                self.head as int,
                LogHeader::encode(self.lh@, old(disk).image()[self.head as int], 0),
            ),
            final(disk).writes() == (old(disk).writes() + Seq::new(
                self.lh.n as nat,
                |i: int| (self.head + 1 + i, self.datas(old(cache))[i]),
            )).push(
                (
                    self.head as int,
                    LogHeader::encode(self.lh@, old(disk).image()[self.head as int], 0),
                ),
            ),
    {
        let ghost img0 = disk.image();
        let ghost c0 = *cache;
        proof {
            self.lemma_pins_roomy(cache);
            assert forall|j: int| 0 <= j < self.lh.n implies cache.resident(
                #[trigger] self.lh.block@[j],
            ) && cache.buf(self.lh.block@[j]).refs > 0 by {
                assert(self.logged(self.lh.block@[j]));
            }
            assert(!self.logged(self.head)) by {
                if self.logged(self.head) {
                    let j = choose|j: int|
                        0 <= j < self.lh.n && #[trigger] self.lh.block@[j] == self.head;
                    assert(!in_log(self.lh@.block[j] as int, self.head as int, self.size as int));
                }
            }
            self.lemma_unlogged_clean(cache, img0, self.head);
        }
        self.write_log(cache, disk);
        let ghost c1 = *cache;
        self.write_head(cache, disk);
        proof {
            cache.lemma_touched_settled(&c1, self.head);
            cache.lemma_settled_trans(&c1, &c0);
        }
    }

    /// The second half of a commit: the blocks of the log body go to their
    /// homes and the log gives up its handles.
    fn settle<D: BlockDevice>(&self, cache: &mut HandleTable, disk: &mut Disk<D>)
        requires
            old(cache).ok(old(disk).image()),
            old(disk).wf(),
            self.wf_for(old(disk).image().len() as int),
            forall|i: int|
                0 <= i < self.lh.n ==> old(cache).overlay(old(disk).image())[self.head + 1 + i]
                    == #[trigger] old(disk).image()[self.head + 1 + i],
            forall|j: int|
                0 <= j < self.lh.n ==> old(cache).resident(#[trigger] self.lh.block@[j]) && old(
                    cache,
                ).buf(self.lh.block@[j]).refs == 1,
            forall|c: u32|
                #[trigger] old(cache).resident(c) && old(cache).buf(c).refs > 0 ==> self.logged(c),
        ensures
            final(cache).wf(),
            final(cache).within(final(disk).image()),
            final(cache).agrees(final(disk).image()),
            final(disk).wf(),
            final(disk).image() == installed(
                old(disk).image(),
                self.head as int,
                self.lh.block@,
                self.lh.n as int,
            ),
            final(cache).overlay(final(disk).image()) == installed(
                old(cache).overlay(old(disk).image()),
                self.head as int,
                self.lh.block@,
                self.lh.n as int,
            ),
            final(disk).writes() == old(disk).writes() + Seq::new(
                self.lh.n as nat,
                |i: int| (self.lh.block@[i] as int, old(disk).image()[self.head + 1 + i]),
            ),
            final(cache).handles@.len() == old(cache).handles@.len(),
            forall|k: int|
                0 <= k < final(cache).handles@.len() ==> (
                #[trigger] final(cache).handles@[k]).bufs@.len() == old(
                    cache,
                ).handles@[k].bufs@.len() && pin_count(final(cache).handles@[k].bufs@) == 0,
            forall|c: u32| #[trigger] final(cache).resident(c) ==> final(cache).buf(c).refs == 0,
            final(cache).pool_size() == old(cache).pool_size(),
    {
        let ghost c0 = *cache;
        self.install_commit(cache, disk);
        let ghost c3 = *cache;
        let ghost img3 = disk.image();
        proof {
            assert forall|j: int| 0 <= j < self.lh.n implies c3.resident(
                #[trigger] self.lh.block@[j],
            ) && c3.buf(self.lh.block@[j]).refs == 1 && !c3.buf(self.lh.block@[j]).dirty
                && self.lh.block@[j] < img3.len() by {
                let c = self.lh.block@[j];
                assert(c0.resident(c) && c0.buf(c).refs > 0);
                assert(self.lh@.block[j] < img3.len());
            }
            assert forall|c: u32| #[trigger] c3.resident(c) && c3.buf(c).refs > 0 implies self.logged(
                c,
            ) by {
                assert(c0.resident(c));
            }
        }
        self.unpin_all(cache, Ghost(img3));
        proof {
            cache.lemma_no_pins();
            assert forall|k: int| 0 <= k < cache.handles@.len() implies (
            #[trigger] cache.handles@[k]).bufs@.len() == c0.handles@[k].bufs@.len() by {
                assert(c3.handles@[k].bufs@.len() == c0.handles@[k].bufs@.len());
            }
        }
    }

    /// Makes the open transaction durable: writes the logged blocks to the
    /// log body, then the header, which is the commit point, then the
    /// blocks to their homes, then the header with its count set to zero.
    /// Afterwards the log holds no block.
    pub fn commit<D: BlockDevice>(&mut self, cache: &mut HandleTable, disk: &mut Disk<D>)
        requires
            old(self).inv(old(cache), old(disk).image()),
            old(disk).wf(),
        ensures
            final(self).inv(final(cache), final(disk).image()),
            final(disk).wf(),
            final(self).lh.n == 0,
            final(self).head == old(self).head,
            final(self).size == old(self).size,
            final(self).outstanding == old(self).outstanding,
            final(disk).writes() == old(disk).writes() + commit_writes(
                old(disk).image(),
                old(self).head as int,
                old(self).lh@,
                old(self).datas(old(cache)),
            ),
            same_outside_log(
                final(disk).image(),
                old(cache).overlay(old(disk).image()),
                old(self).head as int,
                old(self).size as int,
            ),
            final(cache).overlay(final(disk).image()) == final(disk).image(),
            old(self).lh.n == 0 ==> final(disk).image() == old(disk).image() && *final(cache)
                == *old(cache),
            final(cache).pool_size() == old(cache).pool_size(),
    {
        let ghost img0 = disk.image();
        let ghost ov0 = cache.overlay(img0);
        let ghost w0 = disk.writes();
        let ghost h0 = self.lh@;
        let ghost datas = self.datas(old(cache));
        let ghost head = self.head as int;
        let ghost size = self.size as int;
        let ghost c0 = *cache;
        proof {
            self.lemma_overlay_datas(cache, img0);
        }
        if self.lh.n == 0 {
            proof {
                assert(w0 =~= w0 + commit_writes(img0, head, h0, datas));
                assert forall|b: int| 0 <= b < img0.len() implies ov0[b] == img0[b] by {
                    assert(!self.logged(b as u32));
                }
                assert(ov0 =~= img0);
            }
            return ;
        }
        self.stage(cache, disk);
        let ghost c2 = *cache;
        let ghost img2 = disk.image();
        let ghost ov2 = cache.overlay(img2);
        let ghost hb = LogHeader::encode(h0, img0[head], 0);
        proof {
            LogHeader::lemma_codec(h0, img0[head], 0);
            assert forall|i: int| 0 <= i < self.lh.n implies ov2[head + 1 + i]
                == #[trigger] img2[head + 1 + i] by {
                assert(img2[head + 1 + i] == datas[i]);
                assert(ov2[head + 1 + i] == datas[i]);
            }
            assert forall|j: int| 0 <= j < self.lh.n implies c2.resident(
                #[trigger] self.lh.block@[j],
            ) && c2.buf(self.lh.block@[j]).refs == 1 by {
                let c = self.lh.block@[j];
                assert(self.logged(c));
                assert(c0.resident(c) && c0.buf(c).refs > 0);
            }
            assert forall|c: u32| #[trigger] c2.resident(c) && c2.buf(c).refs > 0 implies self.logged(
                c,
            ) by {
                assert(c0.resident(c));
            }
        }
        self.settle(cache, disk);
        let ghost c4 = *cache;
        let ghost img3 = disk.image();
        self.lh.n = 0;
        proof {
            assert(c4.roomy()) by {
                assert forall|k: int| 0 <= k < c4.handles@.len() implies pin_count(
                    (#[trigger] c4.handles@[k]).bufs@,
                ) < c4.handles@[k].bufs@.len() by {
                    assert(c2.handles@[k].bufs@.len() == c0.handles@[k].bufs@.len());
                    assert(size - 1 < c0.handles@[k].bufs@.len());
                }
            }
            lemma_installed_log(ov2, head, size, h0, h0.n as int);
            lemma_installed_log(img2, head, size, h0, h0.n as int);
            assert(c4.overlay(img3)[head] == hb);
        }
        self.write_head(cache, disk);
        proof {
            let img5 = disk.image();
            assert(self.lh@ == LogHeaderView { n: 0, block: h0.block });
            assert(LogHeader::decode(hb, 0).block == h0.block);
            lemma_commit_stream(w0, img0, img2, head, h0, datas, disk.writes());
            lemma_commit_image(img0, ov0, img5, head, size, h0, datas, cleared(hb));
            // the cache
            cache.lemma_touched_settled(&c4, self.head);
            assert forall|c: u32| #[trigger] cache.resident(c) implies cache.buf(c).refs == 0 by {
                if cache.buf(c).refs > 0 {
                    assert(c4.resident(c));
                }
            }
            assert(self.pins_ok(cache)) by {
                assert forall|k: int| 0 <= k < cache.handles@.len() implies pin_count(
                    (#[trigger] cache.handles@[k]).bufs@,
                ) <= self.lh.n && self.size - 1 < cache.handles@[k].bufs@.len() by {
                    assert(pin_count(c4.handles@[k].bufs@) == 0);
                    assert(c4.handles@[k].bufs@.len() == c2.handles@[k].bufs@.len());
                    assert(c2.handles@[k].bufs@.len() == c0.handles@[k].bufs@.len());
                }
            }
            LogHeader::lemma_codec(self.lh@, hb, 0);
            assert forall|b: int| 0 <= b < img5.len() implies cache.overlay(img5)[b]
                == img5[b] by {
                cache.lemma_overlay_clean(img5, b as u32);
            }
            assert(cache.overlay(img5) =~= img5);
        }
    }

    /// What a reader sees of a logged block is what the cache holds of it,
    /// and of any other block what the image holds.
    pub proof fn lemma_overlay_datas(&self, cache: &HandleTable, img: Image)
        requires
            self.inv(cache, img),
        ensures
            cache.overlay(img).len() == img.len(),
            forall|j: int|
                0 <= j < self.lh.n ==> cache.overlay(img)[(#[trigger] self.lh@.block[j]) as int]
                    == self.datas(cache)[j],
            forall|b: int|
                0 <= b < img.len() && (forall|j: int| 0 <= j < self.lh.n ==> self.lh@.block[j] != b)
                    ==> #[trigger] cache.overlay(img)[b] == img[b],
    {
        assert forall|j: int| 0 <= j < self.lh.n implies cache.overlay(img)[(
        #[trigger] self.lh@.block[j]) as int] == self.datas(cache)[j] by {
            assert(cache.resident(self.lh.block@[j]));
        }
        assert forall|b: int|
            0 <= b < img.len() && (forall|j: int|
                0 <= j < self.lh.n ==> self.lh@.block[j] != b) implies #[trigger] cache.overlay(
            img,
        )[b] == img[b] by {
            assert(!self.logged(b as u32));
            self.lemma_unlogged_clean(cache, img, b as u32);
        }
    }
}

/// The writes of the four steps of a commit, one after another, are the
/// writes of the commit.
pub proof fn lemma_commit_stream(
    w0: Seq<DiskWrite>,
    img0: Image,
    img2: Image,
    head: int,
    h: LogHeaderView,
    datas: Seq<Seq<u8>>,
    w: Seq<DiskWrite>,
)
    requires
        h.n > 0,
        forall|i: int| 0 <= i < h.n ==> img2[head + 1 + i] == datas[i],
        w == ((w0 + Seq::new(h.n as nat, |i: int| (head + 1 + i, datas[i]))).push(
            (head, LogHeader::encode(h, img0[head], 0)),
        ) + Seq::new(h.n as nat, |i: int| (h.block[i] as int, img2[head + 1 + i]))).push(
            (head, cleared(LogHeader::encode(h, img0[head], 0))),
        ),
    ensures
        w == w0 + commit_writes(img0, head, h, datas),
{
    let b1 = Seq::new(h.n as nat, |i: int| (h.block[i] as int, img2[head + 1 + i]));
    let b2 = Seq::new(h.n as nat, |i: int| (h.block[i] as int, datas[i]));
    assert(b1 =~= b2);
    assert(w =~= w0 + commit_writes(img0, head, h, datas));
}

/// After a commit every block outside the log holds what a reader saw of
/// it before.
pub proof fn lemma_commit_image(
    img0: Image,
    ov0: Image,
    img5: Image,
    head: int,
    size: int,
    h: LogHeaderView,
    datas: Seq<Seq<u8>>,
    last: Seq<u8>,
)
    requires
        header_ok(h, head, size, img0.len() as int),
        header_distinct(h),
        0 <= head,
        head + size <= img0.len(),
        datas.len() == h.n,
        ov0.len() == img0.len(),
        forall|j: int| 0 <= j < h.n ==> ov0[(#[trigger] h.block[j]) as int] == datas[j],
        forall|b: int|
            0 <= b < img0.len() && (forall|j: int| 0 <= j < h.n ==> h.block[j] != b)
                ==> #[trigger] ov0[b] == img0[b],
        img5 == installed(
            with_body(img0, head, datas, h.n as int).update(
                head,
                LogHeader::encode(h, img0[head], 0),
            ),
            head,
            h.block,
            h.n as int,
        ).update(head, last),
    ensures
        same_outside_log(img5, ov0, head, size),
{
    let img2 = with_body(img0, head, datas, h.n as int).update(
        head,
        LogHeader::encode(h, img0[head], 0),
    );
    let img3 = installed(img2, head, h.block, h.n as int);
    lemma_installed(img2, head, size, h, h.n as int);
    assert forall|b: int| 0 <= b < img5.len() && !in_log(b, head, size) implies img5[b]
        == ov0[b] by {
        assert(img5[b] == img3[b]);
        if exists|j: int| 0 <= j < h.n && h.block[j] == b {
            let j = choose|j: int| 0 <= j < h.n && h.block[j] == b;
            assert(img3[h.block[j] as int] == img2[head + 1 + j]);
            assert(img2[head + 1 + j] == datas[j]);
        } else {
            assert(forall|j: int| 0 <= j < h.n ==> h.block[j] != b);
            assert(img3[b] == img2[b]);
            assert(img2[b] == img0[b]);
        }
    }
}

impl Log {
    /// Whether the header in memory can be acted on in an image of `len`
    /// blocks.
    pub fn header_valid(&self, len: u32) -> (ok: bool)
        requires
            2 <= self.size <= LOGSIZE,
            self.head + self.size <= len,
        ensures
            ok == header_ok(self.lh@, self.head as int, self.size as int, len as int),
    {
        if self.lh.n > self.size - 1 {
            return false;
        }
        let n = self.lh.n;
        let mut i: u32 = 0;
        while i < n
            invariant
                i <= n,
                n == self.lh.n,
                n <= self.size - 1,
                2 <= self.size <= LOGSIZE,
                self.head + self.size <= len,
                forall|j: int|
                    0 <= j < i ==> (#[trigger] self.lh@.block[j]) < len && !in_log(
                        self.lh@.block[j] as int,
                        self.head as int,
                        self.size as int,
                    ),
            decreases n - i,
        {
            let b = self.lh.block[i as usize];
            if b >= len || (self.head <= b && b < self.head + self.size) {
                assert(!(self.lh@.block[i as int] < len && !in_log(
                    self.lh@.block[i as int] as int,
                    self.head as int,
                    self.size as int,
                )));
                return false;
            }
            i = i + 1;
        }
        true
    }

    /// Recovery: copies home the blocks of a transaction that was committed
    /// and not yet copied home in full, and sets the header's count to zero.
    /// Returns false, and writes nothing, where the header names blocks and
    /// cannot be acted on.
    pub fn recover<D: BlockDevice>(&mut self, cache: &mut HandleTable, disk: &mut Disk<D>) -> (ok:
        bool)
        requires
            old(cache).ok(old(disk).image()),
            forall|c: u32| #[trigger] old(cache).resident(c) ==> old(cache).buf(c).refs == 0,
            forall|k: int|
                0 <= k < old(cache).handles@.len() ==> old(self).size - 1 < (#[trigger] old(
                    cache,
                ).handles@[k]).bufs@.len(),
            old(disk).wf(),
            2 <= old(self).size <= LOGSIZE,
            old(self).head + old(self).size <= old(disk).image().len(),
            !old(self).committing,
        ensures
            ok == (header_of(old(disk).image(), old(self).head as int).n == 0 || header_ok(
                header_of(old(disk).image(), old(self).head as int),
                old(self).head as int,
                old(self).size as int,
                old(disk).image().len() as int,
            )),
            final(disk).wf(),
            final(disk).image().len() == old(disk).image().len(),
            final(disk).image() == recovered(
                old(disk).image(),
                old(self).head as int,
                old(self).size as int,
            ),
            final(disk).writes() == old(disk).writes() + recovery_writes(
                old(disk).image(),
                old(self).head as int,
                old(self).size as int,
            ),
            ok ==> final(self).inv(final(cache), final(disk).image()),
            ok ==> final(cache).overlay(final(disk).image()) == final(disk).image(),
            final(cache).pool_size() == old(cache).pool_size(),
            final(self).lh.n == 0,
            final(self).head == old(self).head,
            final(self).size == old(self).size,
            final(self).outstanding == old(self).outstanding,
    {
        let ghost img0 = disk.image();
        let ghost w0 = disk.writes();
        let ghost c0 = *cache;
        let ghost head = self.head as int;
        let ghost size = self.size as int;
        proof {
            assert forall|b: int| 0 <= b < img0.len() implies c0.overlay(img0)[b] == img0[b] by {
                c0.lemma_overlay_clean(img0, b as u32);
            }
            assert(c0.overlay(img0) =~= img0);
            assert(w0 =~= w0 + Seq::<DiskWrite>::empty());
        }
        let len = disk.block_count();
        self.read_head(cache, disk);
        let ghost c1 = *cache;
        let ghost h = self.lh@;
        proof {
            c1.lemma_touched_settled(&c0, self.head);
            assert forall|c: u32| #[trigger] c1.resident(c) implies c1.buf(c).refs == 0 by {
                if c1.buf(c).refs > 0 {
                    assert(c0.resident(c));
                }
            }
            c1.lemma_no_pins();
        }
        if self.lh.n == 0 {
            proof {
                assert(self.pins_ok(cache)) by {
                    assert forall|k: int| 0 <= k < cache.handles@.len() implies pin_count(
                        (#[trigger] cache.handles@[k]).bufs@,
                    ) <= self.lh.n && self.size - 1 < cache.handles@[k].bufs@.len() by {
                        assert(cache.handles@[k].bufs@.len() == c0.handles@[k].bufs@.len());
                    }
                }
            }
            return true;
        }
        if !self.header_valid(len) {
            self.lh.n = 0;
            return false;
        }
        self.install_commit(cache, disk);
        let ghost c2 = *cache;
        let ghost img2 = disk.image();
        self.lh.n = 0;
        proof {
            lemma_installed_log(img0, head, size, h, h.n as int);
            assert(cache.overlay(img2) == img2);
        }
        self.write_head(cache, disk);
        proof {
            let img3 = disk.image();
            assert(self.lh@ == LogHeaderView { n: 0, block: h.block });
            assert(img3 == recovered(img0, head, size));
            assert(disk.writes() =~= w0 + recovery_writes(img0, head, size));
            c2.lemma_settled_trans(&c1, &c0);
            cache.lemma_touched_settled(&c2, self.head);
            cache.lemma_settled_trans(&c2, &c0);
            assert forall|c: u32| #[trigger] cache.resident(c) implies cache.buf(c).refs == 0 by {
                if cache.buf(c).refs > 0 {
                    assert(c0.resident(c));
                }
            }
            cache.lemma_no_pins();
            assert(self.pins_ok(cache)) by {
                assert forall|k: int| 0 <= k < cache.handles@.len() implies pin_count(
                    (#[trigger] cache.handles@[k]).bufs@,
                ) <= self.lh.n && self.size - 1 < cache.handles@[k].bufs@.len() by {
                    assert(cache.handles@[k].bufs@.len() == c0.handles@[k].bufs@.len());
                }
            }
            LogHeader::lemma_codec(self.lh@, img0[head], 0);
            assert forall|b: int| 0 <= b < img3.len() implies cache.overlay(img3)[b]
                == img3[b] by {
                cache.lemma_overlay_clean(img3, b as u32);
            }
            assert(cache.overlay(img3) =~= img3);
        }
        true
    }

    /// Places the log where the superblock says and runs recovery.
    pub fn init<D: BlockDevice>(
        &mut self,
        sb: &SuperBlock,
        cache: &mut HandleTable,
        disk: &mut Disk<D>,
    ) -> (r: Result<(), FsError>)
        requires
            2 <= sb.nlog <= LOGSIZE,
            sb.logstart + sb.nlog <= old(disk).image().len(),
            old(cache).ok(old(disk).image()),
            forall|c: u32| #[trigger] old(cache).resident(c) ==> old(cache).buf(c).refs == 0,
            forall|k: int|
                0 <= k < old(cache).handles@.len() ==> LOGSIZE <= (#[trigger] old(
                    cache,
                ).handles@[k]).bufs@.len(),
            old(disk).wf(),
        ensures
            r is Ok <==> (header_of(old(disk).image(), sb.logstart as int).n == 0 || header_ok(
                header_of(old(disk).image(), sb.logstart as int),
                sb.logstart as int,
                sb.nlog as int,
                old(disk).image().len() as int,
            )),
            r is Err ==> r == Err::<(), FsError>(FsError::Corrupt),
            final(disk).wf(),
            final(disk).image().len() == old(disk).image().len(),
            final(disk).image() == recovered(
                old(disk).image(),
                sb.logstart as int,
                sb.nlog as int,
            ),
            final(disk).writes() == old(disk).writes() + recovery_writes(
                old(disk).image(),
                sb.logstart as int,
                sb.nlog as int,
            ),
            r is Ok ==> final(self).inv(final(cache), final(disk).image()),
            r is Ok ==> final(cache).overlay(final(disk).image()) == final(disk).image(),
            final(cache).pool_size() == old(cache).pool_size(),
            final(self).lh.n == 0,
            final(self).head == sb.logstart,
            final(self).size == sb.nlog,
            final(self).outstanding == 0,
    {
        self.head = sb.logstart;
        self.size = sb.nlog;
        self.outstanding = 0;
        self.committing = false;
        if self.recover(cache, disk) {
            Ok(())
        } else {
            Err(FsError::Corrupt)
        }
    }
}

/// The log manager: the log together with the rules by which operations
/// begin, write and end.
pub struct LogManager(pub Log);

impl LogManager {
    /// The log is in order; see `Log::inv`.
    pub open spec fn inv(&self, cache: &HandleTable, img: Image) -> bool {
        self.0.inv(cache, img)
    }

    /// Whether one more operation may begin: no commit is under way, and
    /// the log body has room for what the operations that have begun and
    /// one more may write.
    pub open spec fn admits(&self) -> bool {
        !self.0.committing && self.0.lh.n + (self.0.outstanding + 1) * MAXOPBLOCKS <= self.0.size
            - 1
    }

    /// A log manager whose log is not set up yet; see `init`.
    pub fn new() -> (m: LogManager)
        ensures
            m.0.outstanding == 0,
            !m.0.committing,
            m.0.lh.n == 0,
            forall|i: int| 0 <= i < 64 ==> m.0.lh.block@[i] == 0,
            m.0.head == 0,
            m.0.size == 0,
    {
        LogManager(Log::new())
    }

    /// Places the log where the superblock says and runs recovery; see
    /// `Log::init`.
    pub fn init<D: BlockDevice>(
        &mut self,
        sb: &SuperBlock,
        cache: &mut HandleTable,
        disk: &mut Disk<D>,
    ) -> (r: Result<(), FsError>)
        requires
            2 <= sb.nlog <= LOGSIZE,
            sb.logstart + sb.nlog <= old(disk).image().len(),
            old(cache).ok(old(disk).image()),
            forall|c: u32| #[trigger] old(cache).resident(c) ==> old(cache).buf(c).refs == 0,
            forall|k: int|
                0 <= k < old(cache).handles@.len() ==> LOGSIZE <= (#[trigger] old(
                    cache,
                ).handles@[k]).bufs@.len(),
            old(disk).wf(),
        ensures
            r is Ok <==> (header_of(old(disk).image(), sb.logstart as int).n == 0 || header_ok(
                header_of(old(disk).image(), sb.logstart as int),
                sb.logstart as int,
                sb.nlog as int,
                old(disk).image().len() as int,
            )),
            r is Err ==> r == Err::<(), FsError>(FsError::Corrupt),
            final(disk).wf(),
            final(disk).image().len() == old(disk).image().len(),
            final(disk).image() == recovered(
                old(disk).image(),
                sb.logstart as int,
                sb.nlog as int,
            ),
            final(disk).writes() == old(disk).writes() + recovery_writes(
                old(disk).image(),
                sb.logstart as int,
                sb.nlog as int,
            ),
            r is Ok ==> final(self).inv(final(cache), final(disk).image()),
            r is Ok ==> final(cache).overlay(final(disk).image()) == final(disk).image(),
            final(cache).pool_size() == old(cache).pool_size(),
            final(self).0.lh.n == 0,
            final(self).0.head == sb.logstart,
            final(self).0.size == sb.nlog,
            final(self).0.outstanding == 0,
    {
        self.0.init(sb, cache, disk)
    }

    /// Begins an operation if it may begin now. Where it returns false the
    /// caller has to wait until an operation has ended and try again.
    pub fn log_begin(&mut self) -> (admitted: bool)
        requires
            old(self).0.size >= 1,
        ensures
            admitted == old(self).admits(),
            admitted ==> final(self).0.outstanding == old(self).0.outstanding + 1,
            !admitted ==> final(self).0.outstanding == old(self).0.outstanding,
            admitted ==> final(self).0.lh.n + final(self).0.outstanding * MAXOPBLOCKS <= final(self).0.size - 1,
            final(self).0.lh == old(self).0.lh,
            final(self).0.head == old(self).0.head,
            final(self).0.size == old(self).0.size,
            final(self).0.committing == old(self).0.committing,
    {
        if self.0.committing {
            return false;
        }
        let ops: u64 = self.0.outstanding as u64 + 1;
        let per_op: u64 = MAXOPBLOCKS as u64;
        assert(ops * per_op <= 0x1_0000_0000 * 16) by (nonlinear_arith)
            requires
                ops <= 0x1_0000_0000,
                per_op == 16,
        ;
        let need: u64 = self.0.lh.n as u64 + ops * per_op;
        if need > (self.0.size - 1) as u64 {
            // this operation might exhaust the log space
            false
        } else {
            self.0.outstanding = self.0.outstanding + 1;
            true
        }
    }

    /// Ends an operation. The last one of the group to end commits.
    pub fn log_end<D: BlockDevice>(&mut self, cache: &mut HandleTable, disk: &mut Disk<D>)
        requires
            old(self).inv(old(cache), old(disk).image()),
            old(disk).wf(),
            old(self).0.outstanding > 0,
        ensures
            final(self).inv(final(cache), final(disk).image()),
            final(disk).wf(),
            final(self).0.outstanding == old(self).0.outstanding - 1,
            final(self).0.head == old(self).0.head,
            final(self).0.size == old(self).0.size,
            final(cache).pool_size() == old(cache).pool_size(),
            old(self).0.outstanding > 1 ==> final(self).0.lh == old(self).0.lh && *final(cache)
                == *old(cache) && final(disk).image() == old(disk).image() && final(disk).writes()
                == old(disk).writes(),
            old(self).0.outstanding == 1 ==> {
                &&& final(self).0.lh.n == 0
                &&& final(disk).writes() == old(disk).writes() + commit_writes(
                    old(disk).image(),
                    old(self).0.head as int,
                    old(self).0.lh@,
                    old(self).0.datas(old(cache)),
                )
                &&& same_outside_log(
                    final(disk).image(),
                    old(cache).overlay(old(disk).image()),
                    old(self).0.head as int,
                    old(self).0.size as int,
                )
                &&& final(cache).overlay(final(disk).image()) == final(disk).image()
            },
    {
        self.0.outstanding = self.0.outstanding - 1;
        if self.0.outstanding == 0 {
            self.0.committing = true;
            proof {
                let before = Log { committing: false, ..self.0 };
                assert(before.inv(cache, disk.image()));
                assert(before.datas(cache) == self.0.datas(cache));
            }
            self.0.committing = false;
            self.0.commit(cache, disk);
        }
    }

    /// Records that block `block_id`, which the caller holds and has
    /// changed in the cache, is part of the open transaction. A block that
    /// is part of it already takes no second place in the log; for a new
    /// one the log takes a handle of its own, which it keeps until the
    /// commit.
    pub fn log_write<D: BlockDevice>(
        &mut self,
        cache: &mut HandleTable,
        disk: &mut Disk<D>,
        block_id: u32,
    )
        requires
            old(self).0.wf_for(old(disk).image().len() as int),
            old(self).0.outstanding > 0,
            old(cache).wf(),
            old(cache).within(old(disk).image()),
            old(cache).agrees(old(disk).image()),
            old(disk).wf(),
            old(self).0.head + old(self).0.size <= block_id < old(disk).image().len(),
            old(cache).resident(block_id),
            0 < old(cache).buf(block_id).refs < u32::MAX,
            old(self).0.logged(block_id) || old(self).0.lh.n < old(self).0.size - 1,
        ensures
            final(disk).wf(),
            final(disk).image() == old(disk).image(),
            final(disk).writes() == old(disk).writes(),
            final(self).0.wf_for(final(disk).image().len() as int),
            final(self).0.head == old(self).0.head,
            final(self).0.size == old(self).0.size,
            final(self).0.outstanding == old(self).0.outstanding,
            final(self).0.committing == old(self).0.committing,
            final(self).0.logged(block_id),
            final(cache).pool_size() == old(cache).pool_size(),
            old(self).0.logged(block_id) ==> final(self).0.lh == old(self).0.lh && *final(cache)
                == *old(cache),
            !old(self).0.logged(block_id) ==> {
                &&& final(self).0.lh.n == old(self).0.lh.n + 1
                &&& final(self).0.lh.block@ == old(self).0.lh.block@.update(
                    old(self).0.lh.n as int,
                    block_id,
                )
                &&& final(cache).wf()
                &&& final(cache).within(final(disk).image())
                &&& final(cache).agrees(final(disk).image())
                &&& final(cache).kept(old(cache), block_id)
                &&& final(cache).resident(block_id)
                &&& final(cache).buf(block_id) == pinned(old(cache).buf(block_id))
                &&& final(cache).overlay(final(disk).image()) == old(cache).overlay(
                    old(disk).image(),
                )
                &&& pin_count(final(cache).shard(block_id)) == pin_count(
                    old(cache).shard(block_id),
                )
            },
    {
        // log absorption
        let n = self.0.lh.n;
        let mut i: u32 = 0;
        while i < n
            invariant
                i <= n,
                n == self.0.lh.n,
                n <= 64,
                *self == *old(self),
                *cache == *old(cache),
                *disk == *old(disk),
                old(disk).wf(),
                old(self).0.wf_for(old(disk).image().len() as int),
                forall|j: int| 0 <= j < i ==> self.0.lh.block@[j] != block_id,
            decreases n - i,
        {
            if self.0.lh.block[i as usize] == block_id {
                assert(self.0.lh.block@[i as int] == block_id);
                return ;
            }
            i = i + 1;
        }
        let ghost img = disk.image();
        let ghost w = disk.writes();
        let ghost c0 = *cache;
        self.0.lh.block[n as usize] = block_id;
        self.0.lh.n = n + 1;
        let r = cache.get(block_id, disk);
        proof {
            cache.lemma_get(&c0, block_id, img, w, disk.image(), disk.writes());
            cache.lemma_kept_after_get(&c0, block_id);
            let h0 = old(self).0.lh@;
            let h1 = self.0.lh@;
            assert(h1.block[n as int] == block_id);
            assert forall|a: int, b: int| 0 <= a < b < h1.n implies #[trigger] h1.block[a]
                != #[trigger] h1.block[b] by {
                if b < n {
                    assert(h0.block[a] != h0.block[b]);
                } else {
                    assert(h1.block[a] == old(self).0.lh.block@[a]);
                }
            }
            assert forall|a: int| 0 <= a < h1.n implies (#[trigger] h1.block[a]) < img.len()
                && !in_log(h1.block[a] as int, self.0.head as int, self.0.size as int) by {
                if a < n {
                    assert(h1.block[a] == h0.block[a]);
                }
            }
        }
    }
}

impl Log {
    /// After work on block `b` alone that left it held once and logged, the
    /// handles fit the log again.
    pub proof fn lemma_pins_after_write(&self, old_log: &Log, old: &HandleTable, new: &HandleTable, b: u32)
        requires
            old_log.pins_ok(old),
            old.wf(),
            new.kept(old, b),
            new.resident(b),
            new.buf(b).refs == 1,
            self.size == old_log.size,
            self.logged(b),
            forall|c: u32| c != b ==> self.logged(c) == old_log.logged(c),
            self.lh.n >= old_log.lh.n,
            forall|j: int|
                0 <= j < self.lh.n ==> #[trigger] self.lh.block@[j] == b || old_log.logged(
                    self.lh.block@[j],
                ),
            pin_count(new.shard(b)) <= self.lh.n,
        ensures
            self.pins_ok(new),
    {
        assert forall|c: u32| #[trigger] new.resident(c) implies (new.buf(c).refs > 0
            <==> self.logged(c)) && new.buf(c).refs <= 1 by {
            if c != b {
                assert(old.resident(c) && new.buf(c) == old.buf(c));
            }
        }
        assert forall|j: int| 0 <= j < self.lh.n implies new.resident(
            #[trigger] self.lh.block@[j],
        ) by {
            let c = self.lh.block@[j];
            if c != b {
                assert(old_log.logged(c));
                let i = choose|i: int| 0 <= i < old_log.lh.n && #[trigger] old_log.lh.block@[i] == c;
                assert(old.resident(old_log.lh.block@[i]));
                assert(old.buf(c).refs > 0);
                if !new.resident(c) {
                    assert(old.buf(c).refs == 0);
                }
            }
        }
        assert forall|k: int| 0 <= k < new.handles@.len() implies pin_count(
            (#[trigger] new.handles@[k]).bufs@,
        ) <= self.lh.n && self.size - 1 < new.handles@[k].bufs@.len() by {
            assert(pin_count(old.handles@[k].bufs@) <= old_log.lh.n);
            assert(new.handles@[k].bufs@.len() == old.handles@[k].bufs@.len());
            if k == old.shard_of(b) {
                assert(new.shard(b) == new.handles@[k].bufs@);
            }
        }
    }
}

impl LogManager {
    /// The bytes of block `block_id` as a reader sees them: with what the
    /// open transaction has written.
    pub fn read<D: BlockDevice>(
        &self,
        cache: &mut HandleTable,
        disk: &mut Disk<D>,
        block_id: u32,
    ) -> (data: [u8; 512])
        requires
            self.inv(old(cache), old(disk).image()),
            old(disk).wf(),
            block_id < old(disk).image().len(),
        ensures
            self.inv(final(cache), final(disk).image()),
            final(disk).wf(),
            final(disk).image() == old(disk).image(),
            final(disk).writes() == old(disk).writes(),
            data@ == old(cache).overlay(old(disk).image())[block_id as int],
            final(cache).overlay(final(disk).image()) == old(cache).overlay(old(disk).image()),
            final(cache).pool_size() == old(cache).pool_size(),
    {
        proof {
            self.0.lemma_pins_roomy(cache);
            cache.lemma_roomy_has_room(block_id);
        }
        let data = cache.read_block(block_id, disk);
        proof {
            cache.lemma_touched_settled(old(cache), block_id);
            self.0.lemma_pins_settled(old(cache), cache);
        }
        data
    }

    /// Puts `data` into block `block_id` as part of the open transaction:
    /// readers see it at once, and the device gets it when the transaction
    /// commits.
    pub fn write<D: BlockDevice>(
        &mut self,
        cache: &mut HandleTable,
        disk: &mut Disk<D>,
        block_id: u32,
        data: &[u8; 512],
    )
        requires
            old(self).inv(old(cache), old(disk).image()),
            old(disk).wf(),
            old(self).0.outstanding > 0,
            old(self).0.head + old(self).0.size <= block_id < old(disk).image().len(),
            old(self).0.logged(block_id) || old(self).0.lh.n < old(self).0.size - 1,
        ensures
            final(self).inv(final(cache), final(disk).image()),
            final(disk).wf(),
            final(disk).image() == old(disk).image(),
            final(disk).writes() == old(disk).writes(),
            final(cache).overlay(final(disk).image()) == old(cache).overlay(
                old(disk).image(),
            ).update(block_id as int, data@),
            final(self).0.head == old(self).0.head,
            final(self).0.size == old(self).0.size,
            final(self).0.outstanding == old(self).0.outstanding,
            final(self).0.logged(block_id),
            forall|c: u32| c != block_id ==> final(self).0.logged(c) == old(self).0.logged(c),
            old(self).0.logged(block_id) ==> final(self).0.lh == old(self).0.lh,
            !old(self).0.logged(block_id) ==> final(self).0.lh.n == old(self).0.lh.n + 1,
            final(cache).pool_size() == old(cache).pool_size(),
    {
        let ghost img = disk.image();
        let ghost w = disk.writes();
        let ghost c0 = *cache;
        let ghost l0 = self.0;
        proof {
            self.0.lemma_pins_roomy(cache);
            cache.lemma_roomy_has_room(block_id);
            crate::buffer::lemma_pin_count_room(cache.shard(block_id));
        }
        let r = cache.get(block_id, disk);
        let ghost c1 = *cache;
        proof {
            c1.lemma_get(&c0, block_id, img, w, disk.image(), disk.writes());
            c1.lemma_kept_after_get(&c0, block_id);
        }
        cache.put(block_id, data);
        let ghost c2 = *cache;
        let ghost x2 = BufferBlock { data: *data, dirty: true, ..c1.buf(block_id) };
        proof {
            c2.lemma_update(&c1, block_id, x2);
            c2.lemma_kept_after_update(&c1, block_id, x2);
            c2.lemma_kept_trans(&c1, &c0, block_id);
            c2.lemma_agrees_after_update(&c1, block_id, x2, img, img);
            c2.lemma_overlay_after_update(&c1, block_id, x2, img, img);
            c2.lemma_within_after_update(&c1, block_id, x2, img);
            c2.lemma_kept_refl(block_id);
        }
        self.log_write(cache, disk, block_id);
        let ghost c3 = *cache;
        let ghost x3 = c3.buf(block_id);
        proof {
            c3.lemma_kept_trans(&c2, &c0, block_id);
        }
        cache.release(block_id);
        proof {
            let x4 = unpinned(x3);
            cache.lemma_update(&c3, block_id, x4);
            cache.lemma_kept_after_update(&c3, block_id, x4);
            cache.lemma_kept_trans(&c3, &c0, block_id);
            cache.lemma_agrees_after_update(&c3, block_id, x4, img, img);
            cache.lemma_overlay_after_update(&c3, block_id, x4, img, img);
            cache.lemma_within_after_update(&c3, block_id, x4, img);
            assert(c0.overlay(img).update(block_id as int, data@).update(block_id as int, data@)
                =~= c0.overlay(img).update(block_id as int, data@));
            assert forall|c: u32| c != block_id implies self.0.logged(c) == l0.logged(c) by {
                if l0.logged(c) {
                    let j = choose|j: int| 0 <= j < l0.lh.n && #[trigger] l0.lh.block@[j] == c;
                    assert(self.0.lh.block@[j] == c);
                }
                if self.0.logged(c) {
                    let j = choose|j: int|
                        0 <= j < self.0.lh.n && #[trigger] self.0.lh.block@[j] == c;
                    assert(l0.lh.block@[j] == c);
                }
            }
            assert forall|j: int| 0 <= j < self.0.lh.n implies #[trigger] self.0.lh.block@[j]
                == block_id || l0.logged(self.0.lh.block@[j]) by {
                if self.0.lh.block@[j] != block_id {
                    assert(l0.lh.block@[j] == self.0.lh.block@[j]);
                }
            }
            assert(pin_count(c0.shard(block_id)) <= l0.lh.n) by {
                assert(pin_count(c0.handles@[c0.shard_of(block_id)].bufs@) <= l0.lh.n);
            }
            self.0.lemma_pins_after_write(&l0, &c0, cache, block_id);
        }
    }
}

/// Recovery keeps the number of blocks, and changes nothing where the
/// header names no block.
pub proof fn lemma_recovered_len(img: Image, head: int, size: int)
    requires
        0 <= head,
        2 <= size,
        head + size <= img.len(),
    ensures
        recovered(img, head, size).len() == img.len(),
        header_of(img, head).n == 0 ==> recovered(img, head, size) == img,
{
    let h = header_of(img, head);
    if h.n == 0 || !header_ok(h, head, size, img.len() as int) {
    } else {
        lemma_installed_log(img, head, size, h, h.n as int);
    }
}

/// Recovery is idempotent: running it on an image that it produced changes
/// nothing.
pub proof fn lemma_recovery_idempotent(img: Image, head: int, size: int)
    requires
        image_wf(img),
        0 <= head,
        2 <= size <= LOGSIZE,
        head + size <= img.len(),
    ensures
        recovered(recovered(img, head, size), head, size) == recovered(img, head, size),
{
    let h = header_of(img, head);
    if h.n == 0 || !header_ok(h, head, size, img.len() as int) {
    } else {
        lemma_installed_log(img, head, size, h, h.n as int);
        let r = recovered(img, head, size);
        LogHeader::lemma_codec(LogHeaderView { n: 0, block: h.block }, img[head], 0);
        assert(r[head] == cleared(img[head]));
        assert(header_of(r, head).n == 0);
    }
}

/// What replacing the first `k` homes does to an image: a block that the
/// header names holds the bytes given for it, and every other block is as
/// it was.
pub proof fn lemma_with_homes(img: Image, head: int, size: int, h: LogHeaderView, datas: Seq<Seq<u8>>, k: int)
    requires
        header_ok(h, head, size, img.len() as int),
        header_distinct(h),
        0 <= k <= h.n,
    ensures
        with_homes(img, h.block, datas, k).len() == img.len(),
        forall|j: int|
            0 <= j < k ==> with_homes(img, h.block, datas, k)[(#[trigger] h.block[j]) as int]
                == datas[j],
        forall|b: int|
            0 <= b < img.len() && (forall|j: int| 0 <= j < k ==> h.block[j] != b) ==> (
            #[trigger] with_homes(img, h.block, datas, k)[b]) == img[b],
        forall|b: int|
            in_log(b, head, size) && 0 <= b < img.len() ==> (#[trigger] with_homes(
                img,
                h.block,
                datas,
                k,
            )[b]) == img[b],
    decreases k,
{
    if k > 0 {
        lemma_with_homes(img, head, size, h, datas, k - 1);
        let prev = with_homes(img, h.block, datas, k - 1);
        let cur = with_homes(img, h.block, datas, k);
        assert(cur == prev.update(h.block[k - 1] as int, datas[k - 1]));
        assert(!in_log(h.block[k - 1] as int, head, size));
        assert forall|j: int| 0 <= j < k implies cur[(#[trigger] h.block[j]) as int]
            == datas[j] by {
            if j < k - 1 {
                assert(h.block[j] != h.block[k - 1]);
            }
        }
        assert forall|b: int|
            0 <= b < img.len() && (forall|j: int| 0 <= j < k ==> h.block[j] != b) implies (
        #[trigger] cur[b]) == img[b] by {
            assert(h.block[k - 1] != b);
            assert(forall|j: int| 0 <= j < k - 1 ==> h.block[j] != b);
        }
    }
}

/// The image after the first `k` writes of a commit.
pub open spec fn mid_commit(
    img: Image,
    head: int,
    h: LogHeaderView,
    datas: Seq<Seq<u8>>,
    k: int,
) -> Image {
    let n = h.n as int;
    let hb = LogHeader::encode(h, img[head], 0);
    let staged = with_body(img, head, datas, n).update(head, hb);
    if k <= n {
        with_body(img, head, datas, k)
    } else if k <= 2 * n + 1 {
        with_homes(staged, h.block, datas, k - n - 1)
    } else {
        with_homes(staged, h.block, datas, n).update(head, cleared(hb))
    }
}

/// The first `k` writes of a commit, applied in order, give `mid_commit`.
pub proof fn lemma_mid_commit(
    img: Image,
    head: int,
    size: int,
    h: LogHeaderView,
    datas: Seq<Seq<u8>>,
    k: int,
)
    requires
        0 <= head,
        2 <= size,
        head + size <= img.len(),
        header_ok(h, head, size, img.len() as int),
        header_distinct(h),
        h.n > 0,
        datas.len() == h.n,
        0 <= k <= 2 * h.n + 2,
    ensures
        commit_writes(img, head, h, datas).len() == 2 * h.n + 2,
        apply_writes(img, commit_writes(img, head, h, datas).take(k)) == mid_commit(
            img,
            head,
            h,
            datas,
            k,
        ),
    decreases k,
{
    let w = commit_writes(img, head, h, datas);
    let n = h.n as int;
    let hb = LogHeader::encode(h, img[head], 0);
    let staged = with_body(img, head, datas, n).update(head, hb);
    if k == 0 {
        assert(w.take(0) =~= Seq::<DiskWrite>::empty());
        assert(with_body(img, head, datas, 0) =~= img);
    } else {
        lemma_mid_commit(img, head, size, h, datas, k - 1);
        assert(w.take(k).drop_last() =~= w.take(k - 1));
        assert(w.take(k).last() == w[k - 1]);
        let prev = mid_commit(img, head, h, datas, k - 1);
        assert(apply_writes(img, w.take(k)) == prev.update(w[k - 1].0, w[k - 1].1));
        if k <= n {
            assert(w[k - 1] == (head + k, datas[k - 1]));
            assert(prev.update(head + k, datas[k - 1]) =~= with_body(img, head, datas, k));
        } else if k == n + 1 {
            assert(w[k - 1] == (head, hb));
            assert(with_homes(staged, h.block, datas, 0) == staged);
        } else if k <= 2 * n + 1 {
            let m = k - n - 1;
            assert(w[k - 1] == (h.block[m - 1] as int, datas[m - 1]));
        } else {
            assert(w[k - 1] == (head, cleared(hb)));
        }
    }
}

/// A commit is atomic with respect to a crash. Take an image that holds no
/// committed transaction, the writes of a commit of the blocks that the
/// header `h` names, with `datas` as their bytes, and any number `k` of
/// these writes. After the first `k` writes and recovery, every block
/// outside the log holds what it held before the commit, if the header
/// was not written yet, and what the commit gives it, if the header was
/// written; nothing in between. The header holds no transaction then.
pub proof fn lemma_crash_atomicity(
    img: Image,
    head: int,
    size: int,
    h: LogHeaderView,
    datas: Seq<Seq<u8>>,
    k: int,
)
    requires
        image_wf(img),
        0 <= head,
        2 <= size <= LOGSIZE,
        head + size <= img.len(),
        header_of(img, head).n == 0,
        header_ok(h, head, size, img.len() as int),
        header_distinct(h),
        datas.len() == h.n,
        forall|i: int| 0 <= i < h.n ==> (#[trigger] datas[i]).len() == 512,
        0 <= k <= commit_writes(img, head, h, datas).len(),
    ensures
        ({
            let crashed = apply_writes(img, commit_writes(img, head, h, datas).take(k));
            let after = recovered(crashed, head, size);
            &&& header_of(after, head).n == 0
            &&& k <= h.n ==> same_outside_log(after, img, head, size)
            &&& k > h.n ==> same_outside_log(
                after,
                with_homes(img, h.block, datas, h.n as int),
                head,
                size,
            )
        }),
{
    let w = commit_writes(img, head, h, datas);
    let n = h.n as int;
    if n == 0 {
        assert(w.take(k) =~= Seq::<DiskWrite>::empty());
    } else {
        lemma_mid_commit(img, head, size, h, datas, k);
        let crashed = mid_commit(img, head, h, datas, k);
        let hb = LogHeader::encode(h, img[head], 0);
        let staged = with_body(img, head, datas, n).update(head, hb);
        let post = with_homes(img, h.block, datas, n);
        LogHeader::lemma_codec(h, img[head], 0);
        lemma_with_homes(img, head, size, h, datas, n);
        if k <= n {
            assert(crashed[head] == img[head]);
        } else {
            let m = if k <= 2 * n + 1 { k - n - 1 } else { n };
            let homes = with_homes(staged, h.block, datas, m);
            lemma_with_homes(staged, head, size, h, datas, m);
            assert(homes[head] == hb);
            if k <= 2 * n + 1 {
                assert(crashed == homes);
                assert(header_of(crashed, head) == h);
                lemma_installed(crashed, head, size, h, n);
                LogHeader::lemma_codec(LogHeaderView { n: 0, block: h.block }, hb, 0);
                let after = recovered(crashed, head, size);
                assert(after == installed(crashed, head, h.block, n).update(head, cleared(hb)));
                assert forall|b: int| 0 <= b < after.len() && !in_log(b, head, size) implies after[b]
                    == post[b] by {
                    if exists|j: int| 0 <= j < n && h.block[j] == b {
                        let j = choose|j: int| 0 <= j < n && h.block[j] == b;
                        assert(installed(crashed, head, h.block, n)[h.block[j] as int]
                            == crashed[head + 1 + j]);
                        assert(in_log(head + 1 + j, head, size));
                        assert(homes[head + 1 + j] == staged[head + 1 + j]);
                        assert(post[h.block[j] as int] == datas[j]);
                    } else {
                        assert(forall|j: int| 0 <= j < n ==> h.block[j] != b);
                        assert(forall|j: int| 0 <= j < m ==> h.block[j] != b);
                        assert(homes[b] == staged[b]);
                    }
                }
            } else {
                LogHeader::lemma_codec(LogHeaderView { n: 0, block: h.block }, hb, 0);
                assert(crashed[head] == cleared(hb));
                assert(header_of(crashed, head).n == 0);
                assert forall|b: int| 0 <= b < crashed.len() && !in_log(b, head, size) implies crashed[b]
                    == post[b] by {
                    if exists|j: int| 0 <= j < n && h.block[j] == b {
                        let j = choose|j: int| 0 <= j < n && h.block[j] == b;
                        assert(homes[h.block[j] as int] == datas[j]);
                        assert(post[h.block[j] as int] == datas[j]);
                    } else {
                        assert(forall|j: int| 0 <= j < n ==> h.block[j] != b);
                        assert(homes[b] == staged[b]);
                    }
                }
            }
        }
    }
}

/// Begins an operation on the volume if it may begin now. Where it returns
/// false the caller has to wait until an operation has ended and try
/// again.
pub fn log_begin<D: BlockDevice>(vol: &mut Volume<D>) -> (admitted: bool)
    requires
        old(vol).inv(),
    ensures
        final(vol).inv(),
        admitted == old(vol).log.admits(),
        admitted ==> final(vol).log.0.outstanding == old(vol).log.0.outstanding + 1,
        !admitted ==> final(vol).log.0.outstanding == old(vol).log.0.outstanding,
        final(vol).sb == old(vol).sb,
        final(vol).durable() == old(vol).durable(),
        final(vol).disk.writes() == old(vol).disk.writes(),
        final(vol).state() == old(vol).state(),
{
    vol.log_begin()
}

/// Ends an operation on the volume; the last one of the group to end
/// commits. See `Volume::log_end`.
pub fn log_end<D: BlockDevice>(vol: &mut Volume<D>)
    requires
        old(vol).inv(),
        old(vol).in_txn(),
    ensures
        final(vol).inv(),
        final(vol).sb == old(vol).sb,
        final(vol).log.0.outstanding == old(vol).log.0.outstanding - 1,
        same_outside_log(
            final(vol).image(),
            old(vol).image(),
            old(vol).sb.logstart as int,
            old(vol).sb.nlog as int,
        ),
        final(vol).in_txn() ==> final(vol).durable() == old(vol).durable() && final(vol).state()
            == old(vol).state(),
        !final(vol).in_txn() ==> final(vol).durable() == final(vol).image() && final(vol).disk.writes() == old(vol).disk.writes() + commit_writes(
            old(vol).durable(),
            old(vol).sb.logstart as int,
            old(vol).log.0.lh@,
            old(vol).log.0.datas(&old(vol).cache),
        ),
{
    vol.log_end()
}

/// Puts `data` into block `block_id` of the volume and records the block
/// as part of the open transaction; see `bwrite_spec`.
pub fn log_write<D: BlockDevice>(vol: &mut Volume<D>, block_id: u32, data: &[u8; 512]) -> (r: Result<
    (),
    FsError,
>)
    requires
        old(vol).inv(),
        old(vol).in_txn(),
        old(vol).sb.inodestart <= block_id < old(vol).sb.size,
    ensures
        final(vol).inv(),
        final(vol).stays(old(vol)),
        (final(vol).state(), r) == bwrite_spec(old(vol).state(), block_id, data@),
{
    vol.bwrite(block_id, data)
}

} // verus!
