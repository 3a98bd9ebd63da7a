//! The buffer cache: a fixed pool of block buffers, split into shards by
//! block number. A shard keeps its buffers from the least recently used to
//! the most recently used and never gives up a buffer that is still held.

use vstd::prelude::*;
use crate::codec::Record;
use crate::fs::{BlockDevice, Disk, Image};
use crate::volume::Volume;

verus! {

/// One buffer of the cache: a block's bytes in memory.
pub struct BufferBlock {
    /// The bytes differ from what the device was last told to hold.
    pub dirty: bool,
    /// The block that the buffer holds, where `loaded`.
    pub block_id: u32,
    /// The buffer holds a block of the device.
    pub loaded: bool,
    pub data: [u8; 512],
    /// The number of handles on the buffer that are held outside the cache.
    pub refs: u32,
}

impl BufferBlock {
    /// A buffer that holds no block is neither dirty nor held.
    pub open spec fn wf(&self) -> bool {
        !self.loaded ==> !self.dirty && self.refs == 0
    }

    /// Whether the buffer holds block `b`.
    pub open spec fn has(&self, b: u32) -> bool {
        self.loaded && self.block_id == b
    }

    /// A buffer that holds no block.
    pub fn new() -> (b: BufferBlock)
        ensures
            !b.loaded,
            !b.dirty,
            b.refs == 0,
            b.block_id == 0,
            forall|i: int| 0 <= i < 512 ==> b.data@[i] == 0u8,
    {
        BufferBlock { dirty: false, block_id: 0, loaded: false, data: [0u8; 512], refs: 0 }
    }

    /// A clean buffer with block `block_id` as the device holds it.
    pub fn init_block<D: BlockDevice>(block_id: u32, disk: &Disk<D>) -> (b: BufferBlock)
        requires
            disk.wf(),
            block_id < disk.image().len(),
        ensures
            b.loaded,
            !b.dirty,
            b.refs == 0,
            b.block_id == block_id,
            b.data@ == disk.image()[block_id as int],
    {
        let mut data = [0u8; 512];
        disk.read(block_id, &mut data);
        BufferBlock { dirty: false, block_id, loaded: true, data, refs: 0 }
    }

    /// Writes the block to the device if the buffer is dirty.
    pub fn sync<D: BlockDevice>(&mut self, disk: &mut Disk<D>)
        requires
            old(self).wf(),
            old(disk).wf(),
            old(self).dirty ==> old(self).block_id < old(disk).image().len(),
        ensures
            *final(self) == (BufferBlock { dirty: false, ..*old(self) }),
            final(disk).wf(),
            final(disk).image().len() == old(disk).image().len(),
            old(self).dirty ==> final(disk).image() == old(disk).image().update(
                old(self).block_id as int,
                old(self).data@,
            ) && final(disk).writes() == old(disk).writes().push(
                (old(self).block_id as int, old(self).data@),
            ),
            !old(self).dirty ==> final(disk).image() == old(disk).image() && final(disk).writes()
                == old(disk).writes(),
    {
        if self.dirty {
            self.dirty = false;
            disk.write(self.block_id, &self.data);
        }
    }

    /// The number of the block that the buffer holds.
    pub fn id(&self) -> (b: u32)
        ensures
            b == self.block_id,
    {
        self.block_id
    }

    /// Calls `f` on the value of type `T` that stands at `offset`.
    pub fn read<T: Record, V, F: FnOnce(&T) -> V>(&self, offset: usize, f: F) -> (v: V)
        requires
            offset + T::size() <= 512,
            forall|t: T| t@ == T::decode(self.data@, offset as int) ==> call_requires(f, (&t,)),
        ensures
            exists|t: T|
                t@ == T::decode(self.data@, offset as int) && T::valid(t@) && call_ensures(
                    f,
                    (&t,),
                    v,
                ),
    {
        let t = T::load(&self.data, offset);
        f(&t)
    }

    /// Calls `f` on the value of type `T` that stands at `offset`, stores
    /// what `f` left in it, and marks the buffer dirty.
    pub fn write<T: Record, V, F: FnOnce(&mut T) -> V>(&mut self, offset: usize, f: F) -> (v: V)
        requires
            offset + T::size() <= 512,
            forall|t: &mut T|
                (*t)@ == T::decode(old(self).data@, offset as int) ==> call_requires(f, (t,)),
        ensures
            exists|t: &mut T|
                (*t)@ == T::decode(old(self).data@, offset as int) && call_ensures(f, (t,), v)
                    && T::valid((*final(t))@) && final(self).data@ == T::encode(
                    (*final(t))@,
                    old(self).data@,
                    offset as int,
                ),
            final(self).dirty,
            final(self).block_id == old(self).block_id,
            final(self).loaded == old(self).loaded,
            final(self).refs == old(self).refs,
    {
        let mut t = T::load(&self.data, offset);
        let v = f(&mut t);
        t.store(&mut self.data, offset);
        self.dirty = true;
        v
    }

    /// As `write`, and then writes the block to the device.
    pub fn sync_write<T: Record, V, D: BlockDevice, F: FnOnce(&mut T) -> V>(
        &mut self,
        disk: &mut Disk<D>,
        offset: usize,
        f: F,
    ) -> (v: V)
        requires
            old(self).loaded,
            old(disk).wf(),
            old(self).block_id < old(disk).image().len(),
            offset + T::size() <= 512,
            forall|t: &mut T|
                (*t)@ == T::decode(old(self).data@, offset as int) ==> call_requires(f, (t,)),
        ensures
            exists|t: &mut T|
                (*t)@ == T::decode(old(self).data@, offset as int) && call_ensures(f, (t,), v)
                    && T::valid((*final(t))@) && final(self).data@ == T::encode(
                    (*final(t))@,
                    old(self).data@,
                    offset as int,
                ),
            !final(self).dirty,
            final(self).block_id == old(self).block_id,
            final(self).loaded == old(self).loaded,
            final(self).refs == old(self).refs,
            final(disk).wf(),
            final(disk).image() == old(disk).image().update(
                old(self).block_id as int,
                final(self).data@,
            ),
            final(disk).writes() == old(disk).writes().push(
                (old(self).block_id as int, final(self).data@),
            ),
    {
        let v = self.write(offset, f);
        self.sync(disk);
        v
    }
}

/// Whether one of the buffers holds block `b`.
pub open spec fn holds(s: Seq<BufferBlock>, b: u32) -> bool {
    exists|i: int| 0 <= i < s.len() && (#[trigger] s[i]).has(b)
}

/// The place of the buffer that holds block `b`, where there is one.
pub open spec fn slot(s: Seq<BufferBlock>, b: u32) -> int {
    choose|i: int| 0 <= i < s.len() && (#[trigger] s[i]).has(b)
}

/// No two buffers hold the same block.
pub open spec fn distinct(s: Seq<BufferBlock>) -> bool {
    forall|i: int, j: int|
        0 <= i < j < s.len() && (#[trigger] s[i]).loaded && (#[trigger] s[j]).loaded ==> s[i].block_id
            != s[j].block_id
}

/// `v` is the place of the least recently used buffer that nobody holds.
pub open spec fn first_unpinned(s: Seq<BufferBlock>, v: int) -> bool {
    &&& 0 <= v < s.len()
    &&& s[v].refs == 0
    &&& forall|k: int| 0 <= k < v ==> (#[trigger] s[k]).refs > 0
}

/// Every buffer is held by somebody.
pub open spec fn all_pinned(s: Seq<BufferBlock>) -> bool {
    forall|k: int| 0 <= k < s.len() ==> (#[trigger] s[k]).refs > 0
}

/// The number of buffers that somebody holds.
pub open spec fn pin_count(s: Seq<BufferBlock>) -> nat
    decreases s.len(),
{
    if s.len() == 0 {
        0
    } else {
        pin_count(s.drop_last()) + (if s.last().refs > 0 {
            1nat
        } else {
            0nat
        })
    }
}

/// The buffer at `i` with one more handle on it.
pub open spec fn pinned(x: BufferBlock) -> BufferBlock {
    BufferBlock { refs: (x.refs + 1) as u32, ..x }
}

/// The buffer at `i` with one handle fewer on it.
pub open spec fn unpinned(x: BufferBlock) -> BufferBlock {
    BufferBlock { refs: (x.refs - 1) as u32, ..x }
}

/// `t` is `s` after a hit on the buffer at `i`: it has one more handle and
/// has become the most recently used.
pub open spec fn hit_post(s: Seq<BufferBlock>, t: Seq<BufferBlock>, i: int) -> bool {
    t == s.remove(i).push(pinned(s[i]))
}

/// `t` is `s` after a miss on block `b` that took the buffer at `v`: the
/// buffer is gone and a clean one with the block's bytes, held once, has
/// become the most recently used.
pub open spec fn miss_post(
    s: Seq<BufferBlock>,
    t: Seq<BufferBlock>,
    v: int,
    b: u32,
    bytes: Seq<u8>,
) -> bool {
    &&& t.len() == s.len()
    &&& t.drop_last() == s.remove(v)
    &&& t.last().has(b)
    &&& !t.last().dirty
    &&& t.last().refs == 1
    &&& t.last().data@ == bytes
}

/// What the device holds and has been told after a buffer was given up: a
/// dirty one was written first.
pub open spec fn flushed(
    x: BufferBlock,
    img0: Image,
    w0: Seq<(int, Seq<u8>)>,
    img1: Image,
    w1: Seq<(int, Seq<u8>)>,
) -> bool {
    if x.dirty {
        img1 == img0.update(x.block_id as int, x.data@) && w1 == w0.push(
            (x.block_id as int, x.data@),
        )
    } else {
        img1 == img0 && w1 == w0
    }
}

/// How a request for a handle on block `b` changes a shard with buffers `s`
/// into one with buffers `t`, and what it does to the device.
pub open spec fn get_post(
    s: Seq<BufferBlock>,
    t: Seq<BufferBlock>,
    b: u32,
    img0: Image,
    w0: Seq<(int, Seq<u8>)>,
    img1: Image,
    w1: Seq<(int, Seq<u8>)>,
    r: bool,
) -> bool {
    &&& r ==> holds(t, b) && t.last().has(b)
    &&& holds(s, b) ==> ({
        let i = slot(s, b);
        &&& img1 == img0
        &&& w1 == w0
        &&& r == (s[i].refs < u32::MAX)
        &&& r ==> hit_post(s, t, i)
        &&& !r ==> t == s
    })
    &&& !holds(s, b) ==> ({
        &&& r == !all_pinned(s)
        &&& !r ==> t == s && img1 == img0 && w1 == w0
        &&& forall|v: int| #[trigger]
            first_unpinned(s, v) ==> flushed(s[v], img0, w0, img1, w1) && miss_post(
                s,
                t,
                v,
                b,
                img1[b as int],
            )
    })
}

/// Among buffers that hold different blocks, the place of a block is the
/// place of any buffer that holds it.
pub proof fn lemma_slot_unique(s: Seq<BufferBlock>, b: u32, i: int)
    requires
        distinct(s),
        0 <= i < s.len(),
        s[i].has(b),
    ensures
        holds(s, b),
        slot(s, b) == i,
{
    let j = slot(s, b);
    if j < i {
        assert(s[j].block_id != s[i].block_id);
    } else if i < j {
        assert(s[i].block_id != s[j].block_id);
    }
}

/// One more buffer counts as held if somebody holds it.
pub proof fn lemma_pin_count_push(s: Seq<BufferBlock>, x: BufferBlock)
    ensures
        pin_count(s.push(x)) == pin_count(s) + (if x.refs > 0 {
            1nat
        } else {
            0nat
        }),
{
    assert(s.push(x).drop_last() =~= s);
}

/// Without one of its buffers a shard has one held buffer fewer if that
/// buffer was held.
pub proof fn lemma_pin_count_remove(s: Seq<BufferBlock>, i: int)
    requires
        0 <= i < s.len(),
    ensures
        pin_count(s.remove(i)) + (if s[i].refs > 0 {
            1nat
        } else {
            0nat
        }) == pin_count(s),
    decreases s.len(),
{
    if i == s.len() - 1 {
        assert(s.remove(i) =~= s.drop_last());
    } else {
        lemma_pin_count_remove(s.drop_last(), i);
        assert(s.remove(i).drop_last() =~= s.drop_last().remove(i));
        assert(s.remove(i).last() == s.last());
    }
}

/// Replacing a buffer changes the number of held buffers by what the two
/// buffers differ in.
pub proof fn lemma_pin_count_update(s: Seq<BufferBlock>, i: int, x: BufferBlock)
    requires
        0 <= i < s.len(),
    ensures
        pin_count(s.update(i, x)) + (if s[i].refs > 0 {
            1nat
        } else {
            0nat
        }) == pin_count(s) + (if x.refs > 0 {
            1nat
        } else {
            0nat
        }),
    decreases s.len(),
{
    if i == s.len() - 1 {
        assert(s.update(i, x).drop_last() =~= s.drop_last());
    } else {
        lemma_pin_count_update(s.drop_last(), i, x);
        assert(s.update(i, x).drop_last() =~= s.drop_last().update(i, x));
    }
}

/// Fewer held buffers than buffers: one of them is held by nobody.
pub proof fn lemma_pin_count_room(s: Seq<BufferBlock>)
    ensures
        pin_count(s) <= s.len(),
        pin_count(s) < s.len() ==> !all_pinned(s),
        pin_count(s) == 0 ==> forall|k: int| 0 <= k < s.len() ==> (#[trigger] s[k]).refs == 0,
    decreases s.len(),
{
    if s.len() > 0 {
        lemma_pin_count_room(s.drop_last());
        if pin_count(s) < s.len() {
            if s.last().refs > 0 {
                assert(!all_pinned(s.drop_last()));
                let k = choose|k: int| 0 <= k < s.drop_last().len() && !(s.drop_last()[k].refs > 0);
                assert(s[k] == s.drop_last()[k]);
            }
        }
        if pin_count(s) == 0 {
            assert forall|k: int| 0 <= k < s.len() implies (#[trigger] s[k]).refs == 0 by {
                if k < s.len() - 1 {
                    assert(s[k] == s.drop_last()[k]);
                }
            }
        }
    }
}

/// One shard of the cache: its buffers, the least recently used first.
pub struct LruHandle {
    pub bufs: Vec<BufferBlock>,
}

impl LruHandle {
    /// The buffers are in order, and no two of them hold the same block.
    pub open spec fn wf(&self) -> bool {
        &&& forall|i: int| 0 <= i < self.bufs@.len() ==> (#[trigger] self.bufs@[i]).wf()
        &&& distinct(self.bufs@)
    }

    /// Every block that the shard holds is a block of the image.
    pub open spec fn within(&self, img: Image) -> bool {
        forall|i: int|
            0 <= i < self.bufs@.len() && (#[trigger] self.bufs@[i]).loaded ==> self.bufs@[i].block_id
                < img.len()
    }

    /// A shard of `n` buffers that hold no block.
    pub fn new(n: usize) -> (h: LruHandle)
        ensures
            h.wf(),
            h.bufs@.len() == n,
            forall|i: int| 0 <= i < n ==> !(#[trigger] h.bufs@[i]).loaded,
            pin_count(h.bufs@) == 0,
    {
        let mut bufs: Vec<BufferBlock> = Vec::new();
        let mut i: usize = 0;
        while i < n
            invariant
                i <= n,
                bufs@.len() == i,
                forall|k: int| 0 <= k < i ==> !(#[trigger] bufs@[k]).loaded && bufs@[k].wf(),
                pin_count(bufs@) == 0,
            decreases n - i,
        {
            let b = BufferBlock::new();
            proof {
                lemma_pin_count_push(bufs@, b);
            }
            bufs.push(b);
            i = i + 1;
        }
        LruHandle { bufs }
    }

    /// The place of the buffer that holds block `block_id`.
    pub fn find(&self, block_id: u32) -> (r: Option<usize>)
        requires
            self.wf(),
        ensures
            r matches Some(i) ==> i < self.bufs@.len() && self.bufs@[i as int].has(block_id)
                && holds(self.bufs@, block_id) && slot(self.bufs@, block_id) == i,
            r is None ==> !holds(self.bufs@, block_id),
    {
        let n = self.bufs.len();
        let mut i: usize = 0;
        while i < n
            invariant
                i <= n,
                n == self.bufs@.len(),
                self.wf(),
                forall|k: int| 0 <= k < i ==> !(#[trigger] self.bufs@[k]).has(block_id),
            decreases n - i,
        {
            if self.bufs[i].loaded && self.bufs[i].block_id == block_id {
                proof {
                    lemma_slot_unique(self.bufs@, block_id, i as int);
                }
                return Some(i);
            }
            i = i + 1;
        }
        None
    }

    /// The place of the least recently used buffer that nobody holds.
    pub fn find_victim(&self) -> (r: Option<usize>)
        ensures
            r matches Some(v) ==> first_unpinned(self.bufs@, v as int),
            r is None ==> all_pinned(self.bufs@),
    {
        let n = self.bufs.len();
        let mut i: usize = 0;
        while i < n
            invariant
                i <= n,
                n == self.bufs@.len(),
                forall|k: int| 0 <= k < i ==> (#[trigger] self.bufs@[k]).refs > 0,
            decreases n - i,
        {
            if self.bufs[i].refs == 0 {
                return Some(i);
            }
            i = i + 1;
        }
        None
    }

    /// Takes a handle on block `block_id`, loading it in place of the least
    /// recently used buffer that nobody holds if the shard does not hold it
    /// yet. A dirty buffer is written to the device before it is given up.
    /// Returns false, and changes nothing, if the block would have to be
    /// loaded and every buffer is held, or if the handle count is at its
    /// limit.
    pub fn get<D: BlockDevice>(&mut self, block_id: u32, disk: &mut Disk<D>) -> (r: bool)
        requires
            old(self).wf(),
            old(self).within(old(disk).image()),
            old(disk).wf(),
            block_id < old(disk).image().len(),
        ensures
            final(self).wf(),
            final(self).within(final(disk).image()),
            final(disk).wf(),
            final(disk).image().len() == old(disk).image().len(),
            final(self).bufs@.len() == old(self).bufs@.len(),
            get_post(
                old(self).bufs@,
                final(self).bufs@,
                block_id,
                old(disk).image(),
                old(disk).writes(),
                final(disk).image(),
                final(disk).writes(),
                r,
            ),
    {
        match self.find(block_id) {
            Some(i) => {
                if self.bufs[i].refs == u32::MAX {
                    return false;
                }
                let mut buf = self.bufs.remove(i);
                buf.refs = buf.refs + 1;
                self.bufs.push(buf);
                proof {
                    let s = old(self).bufs@;
                    let t = self.bufs@;
                    assert(t =~= s.remove(i as int).push(pinned(s[i as int])));
                    assert(t.last().has(block_id));
                    lemma_remove_push_keeps(s, i as int, pinned(s[i as int]));
                }
                true
            },
            None => {
                match self.find_victim() {
                    None => false,
                    Some(v) => {
                        let mut victim = self.bufs.remove(v);
                        victim.sync(disk);
                        let mut fresh = BufferBlock::init_block(block_id, disk);
                        fresh.refs = 1;
                        self.bufs.push(fresh);
                        proof {
                            let s = old(self).bufs@;
                            let t = self.bufs@;
                            assert(t.drop_last() =~= s.remove(v as int));
                            assert forall|w: int| #[trigger]
                                first_unpinned(s, w) implies w == v by {
                                if w < v {
                                    assert(s[w].refs > 0);
                                } else if v < w {
                                    assert(s[v as int].refs > 0);
                                }
                            }
                            assert(!all_pinned(s));
                            lemma_remove_push_fresh(s, v as int, t.last());
                            assert(t.last().has(block_id));
                        }
                        true
                    },
                }
            },
        }
    }

    /// Gives back one handle on block `block_id`.
    pub fn release(&mut self, block_id: u32)
        requires
            old(self).wf(),
            holds(old(self).bufs@, block_id),
            old(self).bufs@[slot(old(self).bufs@, block_id)].refs > 0,
        ensures
            final(self).wf(),
            final(self).bufs@ == old(self).bufs@.update(
                slot(old(self).bufs@, block_id),
                unpinned(old(self).bufs@[slot(old(self).bufs@, block_id)]),
            ),
    {
        match self.find(block_id) {
            Some(i) => {
                self.bufs[i].refs = self.bufs[i].refs - 1;
                assert(self.bufs@ =~= old(self).bufs@.update(
                    i as int,
                    unpinned(old(self).bufs@[i as int]),
                ));
            },
            None => {},
        }
    }

    /// The buffer that holds block `block_id`.
    pub fn peek(&self, block_id: u32) -> (b: &BufferBlock)
        requires
            self.wf(),
            holds(self.bufs@, block_id),
        ensures
            *b == self.bufs@[slot(self.bufs@, block_id)],
    {
        match self.find(block_id) {
            Some(i) => &self.bufs[i],
            None => &self.bufs[0],
        }
    }

    /// Puts `data` into the buffer that holds block `block_id` and marks it
    /// dirty.
    pub fn put(&mut self, block_id: u32, data: &[u8; 512])
        requires
            old(self).wf(),
            holds(old(self).bufs@, block_id),
        ensures
            final(self).wf(),
            final(self).bufs@ == old(self).bufs@.update(
                slot(old(self).bufs@, block_id),
                BufferBlock {
                    data: *data,
                    dirty: true,
                    ..old(self).bufs@[slot(old(self).bufs@, block_id)]
                },
            ),
    {
        match self.find(block_id) {
            Some(i) => {
                self.bufs[i].data = *data;
                self.bufs[i].dirty = true;
                assert(self.bufs@ =~= old(self).bufs@.update(
                    i as int,
                    BufferBlock { data: *data, dirty: true, ..old(self).bufs@[i as int] },
                ));
            },
            None => {},
        }
    }

    /// Writes the buffer that holds block `block_id` to the device if it is
    /// dirty.
    pub fn sync<D: BlockDevice>(&mut self, block_id: u32, disk: &mut Disk<D>)
        requires
            old(self).wf(),
            old(self).within(old(disk).image()),
            old(disk).wf(),
            holds(old(self).bufs@, block_id),
        ensures
            final(self).wf(),
            final(self).within(final(disk).image()),
            final(disk).wf(),
            final(disk).image().len() == old(disk).image().len(),
            final(self).bufs@ == old(self).bufs@.update(
                slot(old(self).bufs@, block_id),
                BufferBlock { dirty: false, ..old(self).bufs@[slot(old(self).bufs@, block_id)] },
            ),
            flushed(
                old(self).bufs@[slot(old(self).bufs@, block_id)],
                old(disk).image(),
                old(disk).writes(),
                final(disk).image(),
                final(disk).writes(),
            ),
    {
        match self.find(block_id) {
            Some(i) => {
                self.bufs[i].sync(disk);
                assert(self.bufs@ =~= old(self).bufs@.update(
                    i as int,
                    BufferBlock { dirty: false, ..old(self).bufs@[i as int] },
                ));
            },
            None => {},
        }
    }
}

/// Moving a buffer to the end keeps the others and their being distinct.
pub proof fn lemma_remove_push_keeps(s: Seq<BufferBlock>, i: int, x: BufferBlock)
    requires
        0 <= i < s.len(),
        distinct(s),
        x.loaded == s[i].loaded,
        x.block_id == s[i].block_id,
    ensures
        distinct(s.remove(i).push(x)),
{
    let t = s.remove(i).push(x);
    assert forall|a: int, b: int|
        0 <= a < b < t.len() && (#[trigger] t[a]).loaded && (#[trigger] t[b]).loaded implies t[a].block_id
        != t[b].block_id by {
        let a0 = if a < i { a } else { a + 1 };
        assert(t[a] == s[a0]);
        if b < t.len() - 1 {
            let b0 = if b < i { b } else { b + 1 };
            assert(t[b] == s[b0]);
            assert(s[a0].block_id != s[b0].block_id);
        } else {
            if a0 < i {
                assert(s[a0].block_id != s[i].block_id);
            } else {
                assert(s[i].block_id != s[a0].block_id);
            }
        }
    }
}

/// Putting a block that the shard did not hold in place of a buffer keeps
/// the buffers distinct.
pub proof fn lemma_remove_push_fresh(s: Seq<BufferBlock>, v: int, x: BufferBlock)
    requires
        0 <= v < s.len(),
        distinct(s),
        !holds(s, x.block_id),
    ensures
        distinct(s.remove(v).push(x)),
{
    let t = s.remove(v).push(x);
    assert forall|a: int, b: int|
        0 <= a < b < t.len() && (#[trigger] t[a]).loaded && (#[trigger] t[b]).loaded implies t[a].block_id
        != t[b].block_id by {
        let a0 = if a < v { a } else { a + 1 };
        assert(t[a] == s[a0]);
        if b < t.len() - 1 {
            let b0 = if b < v { b } else { b + 1 };
            assert(t[b] == s[b0]);
            assert(s[a0].block_id != s[b0].block_id);
        } else {
            assert(!s[a0].has(x.block_id));
        }
    }
}

/// The buffer cache: the shards. Block `b` belongs to the shard whose
/// number is `b` modulo the number of shards.
pub struct HandleTable {
    pub handles: Vec<LruHandle>,
}

impl HandleTable {
    /// The number of the shard that block `b` belongs to.
    pub open spec fn shard_of(&self, b: u32) -> int {
        (b as int) % (self.handles@.len() as int)
    }

    /// The buffers of the shard that block `b` belongs to.
    pub open spec fn shard(&self, b: u32) -> Seq<BufferBlock> {
        self.handles@[self.shard_of(b)].bufs@
    }

    /// The cache has a shard, every shard is in order, and each block is held
    /// by the shard that it belongs to.
    pub open spec fn wf(&self) -> bool {
        &&& 0 < self.handles@.len() <= u32::MAX
        &&& forall|k: int| 0 <= k < self.handles@.len() ==> (#[trigger] self.handles@[k]).wf()
        &&& forall|k: int, i: int|
            0 <= k < self.handles@.len() && 0 <= i < self.handles@[k].bufs@.len() && (
            #[trigger] self.handles@[k].bufs@[i]).loaded ==> self.shard_of(
                self.handles@[k].bufs@[i].block_id,
            ) == k
    }

    /// Every block that the cache holds is a block of the image.
    pub open spec fn within(&self, img: Image) -> bool {
        forall|k: int| 0 <= k < self.handles@.len() ==> (#[trigger] self.handles@[k]).within(img)
    }

    /// Whether the cache holds block `b`.
    pub open spec fn resident(&self, b: u32) -> bool {
        holds(self.shard(b), b)
    }

    /// The buffer that holds block `b`, where the cache holds it.
    pub open spec fn buf(&self, b: u32) -> BufferBlock {
        self.shard(b)[slot(self.shard(b), b)]
    }

    /// Every shard but that of block `b` is as it was in `other`.
    pub open spec fn same_but(&self, other: &HandleTable, b: u32) -> bool {
        &&& self.handles@.len() == other.handles@.len()
        &&& forall|k: int|
            0 <= k < self.handles@.len() && k != other.shard_of(b) ==> (
            #[trigger] self.handles@[k]) == other.handles@[k]
    }

    /// A cache of `block_num` buffers in `shard_num` shards of equal size,
    /// holding no block.
    pub fn new(shard_num: u32, block_num: u32) -> (t: HandleTable)
        requires
            shard_num > 0,
            block_num % shard_num == 0,
        ensures
            t.wf(),
            t.handles@.len() == shard_num,
            forall|k: int|
                0 <= k < shard_num ==> (#[trigger] t.handles@[k]).bufs@.len() == block_num
                    / shard_num && pin_count(t.handles@[k].bufs@) == 0,
            forall|b: u32| !t.resident(b),
            forall|img: Image| t.within(img),
            t.pool_size() == block_num,
    {
        let per: usize = (block_num / shard_num) as usize;
        let mut handles: Vec<LruHandle> = Vec::new();
        let mut k: u32 = 0;
        while k < shard_num
            invariant
                k <= shard_num,
                per == block_num / shard_num,
                handles@.len() == k,
                forall|j: int|
                    0 <= j < k ==> (#[trigger] handles@[j]).wf() && handles@[j].bufs@.len() == per
                        && pin_count(handles@[j].bufs@) == 0,
                forall|j: int, i: int|
                    0 <= j < k && 0 <= i < handles@[j].bufs@.len() ==> !(
                    #[trigger] handles@[j].bufs@[i]).loaded,
            decreases shard_num - k,
        {
            let h = LruHandle::new(per);
            handles.push(h);
            k = k + 1;
        }
        let t = HandleTable { handles };
        proof {
            lemma_buffers_upto_even(t.handles@, shard_num as int, per as nat);
            assert(shard_num * (block_num / shard_num) == block_num) by (nonlinear_arith)
                requires
                    shard_num > 0,
                    block_num % shard_num == 0,
            ;
        }
        assert forall|b: u32| !t.resident(b) by {
            if t.resident(b) {
                let i = slot(t.shard(b), b);
                assert(t.handles@[t.shard_of(b)].bufs@[i].loaded);
            }
        }
        t
    }

    /// Takes a handle on block `block_id`; see `LruHandle::get`.
    pub fn get<D: BlockDevice>(&mut self, block_id: u32, disk: &mut Disk<D>) -> (r: bool)
        requires
            old(self).wf(),
            old(self).within(old(disk).image()),
            old(disk).wf(),
            block_id < old(disk).image().len(),
        ensures
            final(self).wf(),
            final(self).within(final(disk).image()),
            final(disk).wf(),
            final(disk).image().len() == old(disk).image().len(),
            final(self).pool_size() == old(self).pool_size(),
            final(self).same_but(old(self), block_id),
            final(self).shard(block_id).len() == old(self).shard(block_id).len(),
            get_post(
                old(self).shard(block_id),
                final(self).shard(block_id),
                block_id,
                old(disk).image(),
                old(disk).writes(),
                final(disk).image(),
                final(disk).writes(),
                r,
            ),
    {
        let k = (block_id % (self.handles.len() as u32)) as usize;
        let r = self.handles[k].get(block_id, disk);
        proof {
            self.lemma_same_but_shape(old(self), block_id);
            let n = self.handles@.len() as int;
            assert(self.handles@[k as int].wf());
            assert forall|j: int, i: int|
                0 <= j < n && 0 <= i < self.handles@[j].bufs@.len() && (
                #[trigger] self.handles@[j].bufs@[i]).loaded implies self.shard_of(
                self.handles@[j].bufs@[i].block_id,
            ) == j by {
                if j == k {
                    lemma_get_ids(
                        old(self).shard(block_id),
                        self.shard(block_id),
                        block_id,
                        old(disk).image(),
                        old(disk).writes(),
                        disk.image(),
                        disk.writes(),
                        r,
                        i,
                    );
                } else {
                    assert(self.handles@[j] == old(self).handles@[j]);
                }
            }
            assert forall|j: int| 0 <= j < n implies (#[trigger] self.handles@[j]).within(
                disk.image(),
            ) by {
                if j != k {
                    assert(self.handles@[j] == old(self).handles@[j]);
                    assert(old(self).handles@[j].within(old(disk).image()));
                }
            }
        }
        r
    }

    /// Gives back one handle on block `block_id`.
    pub fn release(&mut self, block_id: u32)
        requires
            old(self).wf(),
            old(self).resident(block_id),
            old(self).buf(block_id).refs > 0,
        ensures
            final(self).wf(),
            final(self).pool_size() == old(self).pool_size(),
            final(self).same_but(old(self), block_id),
            final(self).shard(block_id) == old(self).shard(block_id).update(
                slot(old(self).shard(block_id), block_id),
                unpinned(old(self).buf(block_id)),
            ),
    {
        let k = (block_id % (self.handles.len() as u32)) as usize;
        self.handles[k].release(block_id);
        proof {
            self.lemma_same_but_shape(old(self), block_id);
            let n = self.handles@.len() as int;
            assert forall|j: int, i: int|
                0 <= j < n && 0 <= i < self.handles@[j].bufs@.len() && (
                #[trigger] self.handles@[j].bufs@[i]).loaded implies self.shard_of(
                self.handles@[j].bufs@[i].block_id,
            ) == j by {
                if j == k {
                    assert(old(self).handles@[j].bufs@[i].loaded);
                } else {
                    assert(self.handles@[j] == old(self).handles@[j]);
                }
            }
        }
    }

    /// The buffer that holds block `block_id`.
    pub fn peek(&self, block_id: u32) -> (b: &BufferBlock)
        requires
            self.wf(),
            self.resident(block_id),
        ensures
            *b == self.buf(block_id),
    {
        let k = (block_id % (self.handles.len() as u32)) as usize;
        self.handles[k].peek(block_id)
    }

    /// Puts `data` into the buffer that holds block `block_id` and marks it
    /// dirty.
    pub fn put(&mut self, block_id: u32, data: &[u8; 512])
        requires
            old(self).wf(),
            old(self).resident(block_id),
        ensures
            final(self).wf(),
            final(self).pool_size() == old(self).pool_size(),
            final(self).same_but(old(self), block_id),
            final(self).shard(block_id) == old(self).shard(block_id).update(
                slot(old(self).shard(block_id), block_id),
                BufferBlock { data: *data, dirty: true, ..old(self).buf(block_id) },
            ),
    {
        let k = (block_id % (self.handles.len() as u32)) as usize;
        self.handles[k].put(block_id, data);
        proof {
            self.lemma_same_but_shape(old(self), block_id);
            let n = self.handles@.len() as int;
            assert forall|j: int, i: int|
                0 <= j < n && 0 <= i < self.handles@[j].bufs@.len() && (
                #[trigger] self.handles@[j].bufs@[i]).loaded implies self.shard_of(
                self.handles@[j].bufs@[i].block_id,
            ) == j by {
                if j == k {
                    assert(old(self).handles@[j].bufs@[i].loaded);
                } else {
                    assert(self.handles@[j] == old(self).handles@[j]);
                }
            }
        }
    }

    /// Writes the buffer that holds block `block_id` to the device if it is
    /// dirty.
    pub fn sync<D: BlockDevice>(&mut self, block_id: u32, disk: &mut Disk<D>)
        requires
            old(self).wf(),
            old(self).within(old(disk).image()),
            old(disk).wf(),
            old(self).resident(block_id),
        ensures
            final(self).wf(),
            final(self).within(final(disk).image()),
            final(disk).wf(),
            final(disk).image().len() == old(disk).image().len(),
            final(self).pool_size() == old(self).pool_size(),
            final(self).same_but(old(self), block_id),
            final(self).shard(block_id) == old(self).shard(block_id).update(
                slot(old(self).shard(block_id), block_id),
                BufferBlock { dirty: false, ..old(self).buf(block_id) },
            ),
            flushed(
                old(self).buf(block_id),
                old(disk).image(),
                old(disk).writes(),
                final(disk).image(),
                final(disk).writes(),
            ),
    {
        let k = (block_id % (self.handles.len() as u32)) as usize;
        self.handles[k].sync(block_id, disk);
        proof {
            self.lemma_same_but_shape(old(self), block_id);
            let n = self.handles@.len() as int;
            assert forall|j: int, i: int|
                0 <= j < n && 0 <= i < self.handles@[j].bufs@.len() && (
                #[trigger] self.handles@[j].bufs@[i]).loaded implies self.shard_of(
                self.handles@[j].bufs@[i].block_id,
            ) == j by {
                if j == k {
                    assert(old(self).handles@[j].bufs@[i].loaded);
                } else {
                    assert(self.handles@[j] == old(self).handles@[j]);
                }
            }
            assert forall|j: int| 0 <= j < n implies (#[trigger] self.handles@[j]).within(
                disk.image(),
            ) by {
                if j != k {
                    assert(self.handles@[j] == old(self).handles@[j]);
                    assert(old(self).handles@[j].within(old(disk).image()));
                }
            }
        }
    }
}

/// After a request for block `b`, a buffer of the shard holds either `b` or
/// a block that the shard held before.
pub proof fn lemma_get_ids(
    s: Seq<BufferBlock>,
    t: Seq<BufferBlock>,
    b: u32,
    img0: Image,
    w0: Seq<(int, Seq<u8>)>,
    img1: Image,
    w1: Seq<(int, Seq<u8>)>,
    r: bool,
    i: int,
)
    requires
        get_post(s, t, b, img0, w0, img1, w1, r),
        t.len() == s.len(),
        0 <= i < t.len(),
        t[i].loaded,
    ensures
        t[i].block_id == b || exists|j: int| 0 <= j < s.len() && (#[trigger] s[j]).has(t[i].block_id),
{
    if holds(s, b) {
        let h = slot(s, b);
        if r {
            if i < t.len() - 1 {
                let j = if i < h { i } else { i + 1 };
                assert(t[i] == s[j]);
                assert(s[j].has(t[i].block_id));
            }
        } else {
            assert(s[i].has(t[i].block_id));
        }
    } else {
        if r {
            assert(!all_pinned(s));
            let v = lemma_first_unpinned_exists(s);
            assert(first_unpinned(s, v));
            if i < t.len() - 1 {
                let j = if i < v { i } else { i + 1 };
                assert(t.drop_last()[i] == s.remove(v)[i]);
                assert(t[i] == s[j]);
                assert(s[j].has(t[i].block_id));
            }
        } else {
            assert(s[i].has(t[i].block_id));
        }
    }
}

/// Where not every buffer is held, there is a least recently used one that
/// nobody holds.
pub proof fn lemma_first_unpinned_exists(s: Seq<BufferBlock>) -> (v: int)
    requires
        !all_pinned(s),
    ensures
        first_unpinned(s, v),
    decreases s.len(),
{
    let k = choose|k: int| 0 <= k < s.len() && !((#[trigger] s[k]).refs > 0);
    if all_pinned(s.take(k)) {
        assert forall|j: int| 0 <= j < k implies (#[trigger] s[j]).refs > 0 by {
            assert(s.take(k)[j] == s[j]);
        }
        k
    } else {
        let v = lemma_first_unpinned_exists(s.take(k));
        assert(s.take(k)[v] == s[v]);
        assert forall|j: int| 0 <= j < v implies (#[trigger] s[j]).refs > 0 by {
            assert(s.take(k)[j] == s[j]);
        }
        v
    }
}

/// Every clean buffer holds what the image holds, and every dirty buffer is
/// held by somebody.
pub open spec fn shard_ok(s: Seq<BufferBlock>, img: Image) -> bool {
    forall|i: int|
        0 <= i < s.len() ==> {
            &&& (#[trigger] s[i]).wf()
            &&& s[i].loaded && !s[i].dirty ==> s[i].data@ == img[s[i].block_id as int]
            &&& s[i].dirty ==> s[i].refs > 0
        }
}

impl HandleTable {
    /// The cache agrees with the image: every clean buffer holds what the
    /// image holds, and every dirty buffer is held by somebody, so that
    /// giving up a buffer loses nothing.
    pub open spec fn agrees(&self, img: Image) -> bool {
        forall|k: int| 0 <= k < self.handles@.len() ==> shard_ok((#[trigger] self.handles@[k]).bufs@, img)
    }

    /// What a reader sees: for each block the bytes in the cache, where the
    /// cache holds the block, and else the bytes of the image.
    pub open spec fn overlay(&self, img: Image) -> Image {
        Seq::new(
            img.len(),
            |b: int|
                if self.resident(b as u32) {
                    self.buf(b as u32).data@
                } else {
                    img[b]
                },
        )
    }
}

/// The buffers of `s.remove(i).push(x)` are `x` and those of `s` but the one
/// at `i`.
pub proof fn lemma_remove_push_members(s: Seq<BufferBlock>, i: int, x: BufferBlock)
    requires
        0 <= i < s.len(),
    ensures
        s.remove(i).push(x).len() == s.len(),
        s.remove(i).push(x).last() == x,
        forall|j: int|
            0 <= j < s.len() - 1 ==> #[trigger] s.remove(i).push(x)[j] == s[if j < i {
                j
            } else {
                j + 1
            }],
        forall|k: int|
            0 <= k < s.len() && k != i ==> #[trigger] s[k] == s.remove(i).push(x)[if k < i {
                k
            } else {
                k - 1
            }],
{
}

/// What a request for block `b` that succeeded did to a shard that agreed
/// with the image: nothing was written, the shard still agrees, block `b`
/// is held once more, and every other block that the shard holds now it
/// held before, in the same state.
pub proof fn lemma_get_shard(
    s: Seq<BufferBlock>,
    t: Seq<BufferBlock>,
    b: u32,
    img0: Image,
    w0: Seq<(int, Seq<u8>)>,
    img1: Image,
    w1: Seq<(int, Seq<u8>)>,
)
    requires
        distinct(s),
        distinct(t),
        shard_ok(s, img0),
        t.len() == s.len(),
        get_post(s, t, b, img0, w0, img1, w1, true),
    ensures
        img1 == img0,
        w1 == w0,
        shard_ok(t, img0),
        holds(t, b),
        holds(s, b) ==> t[slot(t, b)] == pinned(s[slot(s, b)]),
        !holds(s, b) ==> t[slot(t, b)].data@ == img0[b as int] && !t[slot(t, b)].dirty && t[slot(
            t,
            b,
        )].refs == 1,
        forall|c: u32| c != b && #[trigger] holds(t, c) ==> holds(s, c) && t[slot(t, c)] == s[slot(s, c)],
        forall|c: u32|
            c != b && #[trigger] holds(s, c) && !holds(t, c) ==> !s[slot(s, c)].dirty && s[slot(
                s,
                c,
            )].refs == 0,
        pin_count(t) == pin_count(s) + (if holds(s, b) && s[slot(s, b)].refs > 0 {
            0nat
        } else {
            1nat
        }),
{
    // the place that was taken out of `s`, and what was pushed
    let (i, x) = if holds(s, b) {
        (slot(s, b), pinned(s[slot(s, b)]))
    } else {
        let v = lemma_first_unpinned_exists(s);
        (v, t.last())
    };
    assert(t =~= s.remove(i).push(x)) by {
        if !holds(s, b) {
            assert(miss_post(s, t, i, b, img1[b as int]));
            assert(t.drop_last() == s.remove(i));
            assert(t =~= t.drop_last().push(t.last()));
        }
    }
    lemma_remove_push_members(s, i, x);
    lemma_pin_count_remove(s, i);
    lemma_pin_count_push(s.remove(i), x);
    if !holds(s, b) {
        assert(s[i].refs == 0);
        assert(!s[i].dirty);
    }
    lemma_slot_unique(t, b, t.len() - 1);
    assert forall|c: u32| c != b && #[trigger] holds(t, c) implies holds(s, c) && t[slot(t, c)]
        == s[slot(s, c)] by {
        let j = slot(t, c);
        assert(j < t.len() - 1);
        let k = if j < i { j } else { j + 1 };
        assert(t[j] == s[k]);
        lemma_slot_unique(s, c, k);
    }
    assert forall|c: u32| c != b && #[trigger] holds(s, c) && !holds(t, c) implies !s[slot(
        s,
        c,
    )].dirty && s[slot(s, c)].refs == 0 by {
        let k = slot(s, c);
        if k != i {
            let j = if k < i { k } else { k - 1 };
            assert(t[j] == s[k]);
            assert(t[j].has(c));
        }
    }
    assert forall|j: int| 0 <= j < t.len() implies {
        &&& (#[trigger] t[j]).wf()
        &&& t[j].loaded && !t[j].dirty ==> t[j].data@ == img0[t[j].block_id as int]
        &&& t[j].dirty ==> t[j].refs > 0
    } by {
        if j < t.len() - 1 {
            let k = if j < i { j } else { j + 1 };
            assert(t[j] == s[k]);
        }
    }
}

/// Changing the state of one buffer, but not the block that it holds, keeps
/// which blocks the shard holds and where.
pub proof fn lemma_update_same_ids(s: Seq<BufferBlock>, i: int, x: BufferBlock)
    requires
        0 <= i < s.len(),
        distinct(s),
        x.loaded == s[i].loaded,
        x.block_id == s[i].block_id,
    ensures
        distinct(s.update(i, x)),
        forall|c: u32| #[trigger] holds(s.update(i, x), c) == holds(s, c),
        forall|c: u32| holds(s, c) ==> #[trigger] slot(s.update(i, x), c) == slot(s, c),
{
    let t = s.update(i, x);
    assert forall|a: int, b: int|
        0 <= a < b < t.len() && (#[trigger] t[a]).loaded && (#[trigger] t[b]).loaded implies t[a].block_id
        != t[b].block_id by {
        assert(s[a].loaded && s[b].loaded);
        assert(s[a].block_id != s[b].block_id);
    }
    assert forall|c: u32| #[trigger] holds(t, c) == holds(s, c) by {
        if holds(t, c) {
            let j = slot(t, c);
            assert(s[j].has(c));
        }
        if holds(s, c) {
            let j = slot(s, c);
            assert(t[j].has(c));
        }
    }
    assert forall|c: u32| holds(s, c) implies #[trigger] slot(t, c) == slot(s, c) by {
        let j = slot(s, c);
        assert(t[j].has(c));
        lemma_slot_unique(t, c, j);
    }
}

impl HandleTable {
    /// Blocks of another shard than that of `b` are where they were in
    /// `other`.
    pub proof fn lemma_same_but(&self, other: &HandleTable, b: u32, c: u32)
        requires
            self.same_but(other, b),
            0 < other.handles@.len(),
            other.shard_of(c) != other.shard_of(b),
        ensures
            self.shard(c) == other.shard(c),
            self.resident(c) == other.resident(c),
            self.buf(c) == other.buf(c),
    {
    }

    /// What a request for block `b` that succeeded did to a cache that
    /// agreed with the image.
    pub proof fn lemma_get(
        &self,
        old: &HandleTable,
        b: u32,
        img0: Image,
        w0: Seq<(int, Seq<u8>)>,
        img1: Image,
        w1: Seq<(int, Seq<u8>)>,
    )
        requires
            old.wf(),
            self.wf(),
            old.agrees(img0),
            b < img0.len() <= u32::MAX,
            self.same_but(old, b),
            self.shard(b).len() == old.shard(b).len(),
            get_post(old.shard(b), self.shard(b), b, img0, w0, img1, w1, true),
        ensures
            img1 == img0,
            w1 == w0,
            self.agrees(img0),
            self.resident(b),
            old.resident(b) ==> self.buf(b) == pinned(old.buf(b)),
            !old.resident(b) ==> self.buf(b).data@ == img0[b as int] && !self.buf(b).dirty
                && self.buf(b).refs == 1,
            self.buf(b).data@ == old.overlay(img0)[b as int],
            forall|c: u32|
                c != b && #[trigger] self.resident(c) ==> old.resident(c) && self.buf(c) == old.buf(
                    c,
                ),
            forall|c: u32|
                c != b && #[trigger] old.resident(c) && !self.resident(c) ==> !old.buf(c).dirty
                    && old.buf(c).refs == 0,
            self.overlay(img0) == old.overlay(img0),
            pin_count(self.shard(b)) == pin_count(old.shard(b)) + (if old.resident(b) && old.buf(
                b,
            ).refs > 0 {
                0nat
            } else {
                1nat
            }),
    {
        let k = old.shard_of(b);
        assert(old.handles@[k].wf());
        assert(self.handles@[k].wf());
        assert(shard_ok(old.handles@[k].bufs@, img0));
        lemma_get_shard(old.shard(b), self.shard(b), b, img0, w0, img1, w1);
        assert forall|j: int| 0 <= j < self.handles@.len() implies shard_ok(
            (#[trigger] self.handles@[j]).bufs@,
            img0,
        ) by {
            if j != k {
                assert(self.handles@[j] == old.handles@[j]);
                assert(shard_ok(old.handles@[j].bufs@, img0));
            }
        }
        assert forall|c: u32| c != b && #[trigger] self.resident(c) implies old.resident(c)
            && self.buf(c) == old.buf(c) by {
            if old.shard_of(c) != k {
                self.lemma_same_but(old, b, c);
            } else {
                assert(holds(self.shard(b), c));
            }
        }
        assert forall|c: u32| c != b && #[trigger] old.resident(c) && !self.resident(c) implies !old.buf(
            c,
        ).dirty && old.buf(c).refs == 0 by {
            if old.shard_of(c) != k {
                self.lemma_same_but(old, b, c);
            } else {
                assert(holds(old.shard(b), c));
            }
        }
        assert forall|c: int| 0 <= c < img0.len() implies self.overlay(img0)[c] == old.overlay(
            img0,
        )[c] by {
            let cb = c as u32;
            if cb != b {
                if self.resident(cb) {
                    assert(old.resident(cb) && self.buf(cb) == old.buf(cb));
                } else if old.resident(cb) {
                    assert(!old.buf(cb).dirty);
                    let sh = old.shard(cb);
                    let i = slot(sh, cb);
                    assert(sh[i].has(cb));
                    assert(shard_ok(old.handles@[old.shard_of(cb)].bufs@, img0));
                }
            }
        }
        assert(self.overlay(img0) =~= old.overlay(img0));
    }

    /// What changing the state of the buffer of block `b` did: the blocks
    /// that the cache holds are the same, and every other buffer is as it
    /// was.
    pub proof fn lemma_update(&self, old: &HandleTable, b: u32, x: BufferBlock)
        requires
            old.wf(),
            old.resident(b),
            x.loaded,
            x.block_id == b,
            self.same_but(old, b),
            self.shard(b) == old.shard(b).update(slot(old.shard(b), b), x),
        ensures
            forall|c: u32| #[trigger] self.resident(c) == old.resident(c),
            self.buf(b) == x,
            forall|c: u32| c != b && old.resident(c) ==> #[trigger] self.buf(c) == old.buf(c),
            forall|k: int|
                0 <= k < old.handles@.len() && k != old.shard_of(b) ==> pin_count(
                    (#[trigger] self.handles@[k]).bufs@,
                ) == pin_count(old.handles@[k].bufs@),
            pin_count(self.shard(b)) + (if old.buf(b).refs > 0 {
                1nat
            } else {
                0nat
            }) == pin_count(old.shard(b)) + (if x.refs > 0 {
                1nat
            } else {
                0nat
            }),
    {
        let k = old.shard_of(b);
        let sh = old.shard(b);
        let i = slot(sh, b);
        assert(old.handles@[k].wf());
        lemma_update_same_ids(sh, i, x);
        lemma_pin_count_update(sh, i, x);
        assert forall|c: u32| #[trigger] self.resident(c) == old.resident(c) by {
            if old.shard_of(c) != k {
                self.lemma_same_but(old, b, c);
            } else {
                assert(holds(sh.update(i, x), c) == holds(sh, c));
            }
        }
        assert forall|c: u32| c != b && old.resident(c) implies #[trigger] self.buf(c) == old.buf(
            c,
        ) by {
            if old.shard_of(c) != k {
                self.lemma_same_but(old, b, c);
            } else {
                assert(holds(sh, c));
                assert(slot(sh.update(i, x), c) == slot(sh, c));
                assert(slot(sh, c) != i);
            }
        }
        assert(holds(sh, b));
        assert(slot(sh.update(i, x), b) == i);
    }
}

impl HandleTable {
    /// `self` came from `old` by work on block `b` alone: every other block
    /// that the cache holds now it held before, in the same state; an other
    /// block that it gave up was clean and held by nobody; and the shards
    /// have the sizes that they had.
    pub open spec fn kept(&self, old: &HandleTable, b: u32) -> bool {
        &&& self.handles@.len() == old.handles@.len()
        &&& forall|k: int|
            0 <= k < self.handles@.len() ==> (#[trigger] self.handles@[k]).bufs@.len()
                == old.handles@[k].bufs@.len()
        &&& forall|k: int|
            0 <= k < self.handles@.len() && k != old.shard_of(b) ==> pin_count(
                (#[trigger] self.handles@[k]).bufs@,
            ) == pin_count(old.handles@[k].bufs@)
        &&& forall|c: u32|
            c != b && #[trigger] self.resident(c) ==> old.resident(c) && self.buf(c) == old.buf(c)
        &&& forall|c: u32|
            c != b && #[trigger] old.resident(c) && !self.resident(c) ==> !old.buf(c).dirty
                && old.buf(c).refs == 0
    }

    /// Block `b` can be taken: the cache holds it, or a buffer of its shard
    /// is held by nobody.
    pub open spec fn has_room(&self, b: u32) -> bool {
        if self.resident(b) {
            self.buf(b).refs < u32::MAX
        } else {
            pin_count(self.shard(b)) < self.shard(b).len()
        }
    }

    /// What taking a handle on block `b` leaves of the other blocks: a cache
    /// that differs from `old` in the shard of `b` alone, and has given up only
    /// clean buffers that nobody held, has kept the others.
    pub proof fn lemma_kept_after_get(&self, old: &HandleTable, b: u32)
        requires
            old.wf(),
            self.same_but(old, b),
            self.shard(b).len() == old.shard(b).len(),
            forall|c: u32|
                c != b && #[trigger] self.resident(c) ==> old.resident(c) && self.buf(c) == old.buf(
                    c,
                ),
            forall|c: u32|
                c != b && #[trigger] old.resident(c) && !self.resident(c) ==> !old.buf(c).dirty
                    && old.buf(c).refs == 0,
        ensures
            self.kept(old, b),
    {
        assert forall|k: int| 0 <= k < self.handles@.len() implies (
        #[trigger] self.handles@[k]).bufs@.len() == old.handles@[k].bufs@.len() by {
            if k != old.shard_of(b) {
                assert(self.handles@[k] == old.handles@[k]);
            }
        }
        assert forall|k: int|
            0 <= k < self.handles@.len() && k != old.shard_of(b) implies pin_count(
            (#[trigger] self.handles@[k]).bufs@,
        ) == pin_count(old.handles@[k].bufs@) by {
            assert(self.handles@[k] == old.handles@[k]);
        }
    }

    /// Replacing the buffer of block `b` by another buffer for `b` keeps the
    /// other blocks.
    pub proof fn lemma_kept_after_update(&self, old: &HandleTable, b: u32, x: BufferBlock)
        requires
            old.wf(),
            old.resident(b),
            x.loaded,
            x.block_id == b,
            self.same_but(old, b),
            self.shard(b) == old.shard(b).update(slot(old.shard(b), b), x),
        ensures
            self.kept(old, b),
            self.resident(b),
            self.buf(b) == x,
    {
        self.lemma_update(old, b, x);
        assert forall|k: int| 0 <= k < self.handles@.len() implies (
        #[trigger] self.handles@[k]).bufs@.len() == old.handles@[k].bufs@.len() by {
            if k != old.shard_of(b) {
                assert(self.handles@[k] == old.handles@[k]);
            }
        }
        assert forall|c: u32| c != b && #[trigger] self.resident(c) implies old.resident(c)
            && self.buf(c) == old.buf(c) by {
            assert(self.resident(c) == old.resident(c));
        }
        assert forall|c: u32| c != b && #[trigger] old.resident(c) && !self.resident(c) implies !old.buf(
            c,
        ).dirty && old.buf(c).refs == 0 by {
            assert(self.resident(c) == old.resident(c));
        }
    }

    /// Work on block `b` after work on block `b` is work on block `b`.
    pub proof fn lemma_kept_trans(&self, mid: &HandleTable, old: &HandleTable, b: u32)
        requires
            0 < old.handles@.len(),
            mid.kept(old, b),
            self.kept(mid, b),
        ensures
            self.kept(old, b),
    {
        assert forall|k: int| 0 <= k < self.handles@.len() implies (
        #[trigger] self.handles@[k]).bufs@.len() == old.handles@[k].bufs@.len() by {
            assert(mid.handles@[k].bufs@.len() == old.handles@[k].bufs@.len());
        }
        assert forall|k: int|
            0 <= k < self.handles@.len() && k != old.shard_of(b) implies pin_count(
            (#[trigger] self.handles@[k]).bufs@,
        ) == pin_count(old.handles@[k].bufs@) by {
            assert(pin_count(mid.handles@[k].bufs@) == pin_count(old.handles@[k].bufs@));
        }
        assert forall|c: u32| c != b && #[trigger] self.resident(c) implies old.resident(c)
            && self.buf(c) == old.buf(c) by {
            assert(mid.resident(c));
        }
        assert forall|c: u32| c != b && #[trigger] old.resident(c) && !self.resident(c) implies !old.buf(
            c,
        ).dirty && old.buf(c).refs == 0 by {
            if mid.resident(c) {
                assert(mid.buf(c) == old.buf(c));
            }
        }
    }

    /// The bytes of block `block_id` as a reader sees them: those in the
    /// cache, which loads the block if it does not hold it.
    pub fn read_block<D: BlockDevice>(&mut self, block_id: u32, disk: &mut Disk<D>) -> (data: [u8;
        512])
        requires
            old(self).wf(),
            old(self).within(old(disk).image()),
            old(self).agrees(old(disk).image()),
            old(disk).wf(),
            block_id < old(disk).image().len(),
            old(self).has_room(block_id),
        ensures
            final(self).wf(),
            final(self).within(final(disk).image()),
            final(self).agrees(final(disk).image()),
            final(disk).wf(),
            final(disk).image() == old(disk).image(),
            final(disk).writes() == old(disk).writes(),
            data@ == old(self).overlay(old(disk).image())[block_id as int],
            final(self).overlay(final(disk).image()) == old(self).overlay(old(disk).image()),
            final(self).kept(old(self), block_id),
            final(self).resident(block_id),
            final(self).buf(block_id).refs == (if old(self).resident(block_id) {
                old(self).buf(block_id).refs
            } else {
                0
            }),
            final(self).buf(block_id).dirty == (old(self).resident(block_id) && old(self).buf(
                block_id,
            ).dirty),
            pin_count(final(self).shard(block_id)) == pin_count(old(self).shard(block_id)),
            final(self).touched(old(self), block_id),
            final(self).pool_size() == old(self).pool_size(),
            old(self).roomy() ==> final(self).ok(final(disk).image()),
    {
        proof {
            lemma_pin_count_room(old(self).shard(block_id));
        }
        let ghost img = disk.image();
        let ghost w = disk.writes();
        let r = self.get(block_id, disk);
        let ghost mid = *self;
        proof {
            mid.lemma_get(old(self), block_id, img, w, disk.image(), disk.writes());
            mid.lemma_kept_after_get(old(self), block_id);
        }
        let data = self.peek(block_id).data;
        self.release(block_id);
        proof {
            let x = unpinned(mid.buf(block_id));
            self.lemma_update(&mid, block_id, x);
            self.lemma_kept_after_update(&mid, block_id, x);
            self.lemma_kept_trans(&mid, old(self), block_id);
            self.lemma_agrees_after_update(&mid, block_id, x, img, img);
            self.lemma_overlay_after_update(&mid, block_id, x, img, img);
            assert(old(self).overlay(img).update(block_id as int, x.data@) =~= old(self).overlay(img));
            self.lemma_within_after_update(&mid, block_id, x, img);
            self.lemma_same_shape(old(self));
            if old(self).roomy() {
                self.lemma_touched_settled(old(self), block_id);
                self.lemma_roomy_settled(old(self));
            }
        }
        data
    }

    /// Changing the state of the buffer of block `b` into one that agrees
    /// with the image, while the image changes at block `b` at most, keeps
    /// the cache in agreement with the image.
    pub proof fn lemma_agrees_after_update(
        &self,
        old: &HandleTable,
        b: u32,
        x: BufferBlock,
        img0: Image,
        img1: Image,
    )
        requires
            old.wf(),
            old.resident(b),
            old.agrees(img0),
            img1.len() == img0.len(),
            forall|c: int| 0 <= c < img0.len() && c != b ==> img1[c] == img0[c],
            old.within(img0),
            x.loaded,
            x.block_id == b,
            !x.dirty ==> x.data@ == img1[b as int],
            x.dirty ==> x.refs > 0,
            self.same_but(old, b),
            self.shard(b) == old.shard(b).update(slot(old.shard(b), b), x),
        ensures
            self.agrees(img1),
    {
        let kb = old.shard_of(b);
        let ib = slot(old.shard(b), b);
        assert(old.handles@[kb].wf());
        assert forall|k: int| 0 <= k < self.handles@.len() implies shard_ok(
            (#[trigger] self.handles@[k]).bufs@,
            img1,
        ) by {
            assert(shard_ok(old.handles@[k].bufs@, img0));
            assert(old.handles@[k].within(img0));
            let so = old.handles@[k].bufs@;
            let sn = self.handles@[k].bufs@;
            if k != kb {
                assert(self.handles@[k] == old.handles@[k]);
            }
            assert forall|i: int| 0 <= i < sn.len() implies {
                &&& (#[trigger] sn[i]).wf()
                &&& sn[i].loaded && !sn[i].dirty ==> sn[i].data@ == img1[sn[i].block_id as int]
                &&& sn[i].dirty ==> sn[i].refs > 0
            } by {
                if k == kb && i == ib {
                } else {
                    assert(sn[i] == so[i]);
                    if so[i].loaded {
                        assert(old.shard_of(so[i].block_id) == k);
                        if k == kb {
                            if i < ib {
                                assert(so[i].block_id != so[ib].block_id);
                            } else {
                                assert(so[ib].block_id != so[i].block_id);
                            }
                        }
                        assert(so[i].block_id != b);
                    }
                }
            }
        }
    }

    /// What a reader sees after the state of the buffer of block `b` was
    /// changed, while the image changed at block `b` at most: the bytes of
    /// the buffer for block `b`, and else what it saw.
    pub proof fn lemma_overlay_after_update(
        &self,
        old: &HandleTable,
        b: u32,
        x: BufferBlock,
        img0: Image,
        img1: Image,
    )
        requires
            old.wf(),
            old.resident(b),
            b < img0.len() <= u32::MAX,
            img1.len() == img0.len(),
            forall|c: int| 0 <= c < img0.len() && c != b ==> img1[c] == img0[c],
            x.loaded,
            x.block_id == b,
            self.same_but(old, b),
            self.shard(b) == old.shard(b).update(slot(old.shard(b), b), x),
        ensures
            self.overlay(img1) == old.overlay(img0).update(b as int, x.data@),
    {
        self.lemma_update(old, b, x);
        assert forall|c: int| 0 <= c < img0.len() implies self.overlay(img1)[c] == old.overlay(
            img0,
        ).update(b as int, x.data@)[c] by {
            let cb = c as u32;
            assert(self.resident(cb) == old.resident(cb));
            if cb != b && old.resident(cb) {
                assert(self.buf(cb) == old.buf(cb));
            }
        }
        assert(self.overlay(img1) =~= old.overlay(img0).update(b as int, x.data@));
    }

    /// Puts `data` into block `block_id`, in the cache and on the device.
    pub fn write_through<D: BlockDevice>(
        &mut self,
        block_id: u32,
        data: &[u8; 512],
        disk: &mut Disk<D>,
    )
        requires
            old(self).wf(),
            old(self).within(old(disk).image()),
            old(self).agrees(old(disk).image()),
            old(disk).wf(),
            block_id < old(disk).image().len(),
            old(self).has_room(block_id),
        ensures
            final(self).wf(),
            final(self).within(final(disk).image()),
            final(self).agrees(final(disk).image()),
            final(disk).wf(),
            final(disk).image() == old(disk).image().update(block_id as int, data@),
            final(disk).writes() == old(disk).writes().push((block_id as int, data@)),
            final(self).overlay(final(disk).image()) == old(self).overlay(
                old(disk).image(),
            ).update(block_id as int, data@),
            final(self).kept(old(self), block_id),
            final(self).resident(block_id),
            final(self).buf(block_id).refs == (if old(self).resident(block_id) {
                old(self).buf(block_id).refs
            } else {
                0
            }),
            !final(self).buf(block_id).dirty,
            final(self).buf(block_id).data@ == data@,
            pin_count(final(self).shard(block_id)) == pin_count(old(self).shard(block_id)),
            final(self).touched(old(self), block_id),
            final(self).pool_size() == old(self).pool_size(),
            old(self).roomy() ==> final(self).ok(final(disk).image()),
    {
        proof {
            lemma_pin_count_room(old(self).shard(block_id));
        }
        let ghost img = disk.image();
        let ghost w = disk.writes();
        let r = self.get(block_id, disk);
        let ghost m1 = *self;
        proof {
            m1.lemma_get(old(self), block_id, img, w, disk.image(), disk.writes());
            m1.lemma_kept_after_get(old(self), block_id);
        }
        self.put(block_id, data);
        let ghost m2 = *self;
        let ghost x2 = BufferBlock { data: *data, dirty: true, ..m1.buf(block_id) };
        proof {
            m2.lemma_update(&m1, block_id, x2);
            m2.lemma_kept_after_update(&m1, block_id, x2);
            m2.lemma_kept_trans(&m1, old(self), block_id);
            m2.lemma_agrees_after_update(&m1, block_id, x2, img, img);
            m2.lemma_overlay_after_update(&m1, block_id, x2, img, img);
            assert(m2.within(img)) by {
                m2.lemma_within_after_update(&m1, block_id, x2, img);
            }
        }
        self.sync(block_id, disk);
        let ghost m3 = *self;
        let ghost x3 = BufferBlock { dirty: false, ..x2 };
        let ghost img1 = disk.image();
        proof {
            m3.lemma_update(&m2, block_id, x3);
            m3.lemma_kept_after_update(&m2, block_id, x3);
            m3.lemma_kept_trans(&m2, old(self), block_id);
            m3.lemma_agrees_after_update(&m2, block_id, x3, img, img1);
            m3.lemma_overlay_after_update(&m2, block_id, x3, img, img1);
        }
        self.release(block_id);
        proof {
            let x4 = unpinned(x3);
            self.lemma_update(&m3, block_id, x4);
            self.lemma_kept_after_update(&m3, block_id, x4);
            self.lemma_kept_trans(&m3, old(self), block_id);
            self.lemma_agrees_after_update(&m3, block_id, x4, img1, img1);
            self.lemma_overlay_after_update(&m3, block_id, x4, img1, img1);
            self.lemma_within_after_update(&m3, block_id, x4, img1);
            assert(old(self).overlay(img).update(block_id as int, data@).update(
                block_id as int,
                data@,
            ) =~= old(self).overlay(img).update(block_id as int, data@));
            self.lemma_same_shape(old(self));
            if old(self).roomy() {
                self.lemma_touched_settled(old(self), block_id);
                self.lemma_roomy_settled(old(self));
            }
        }
    }

    /// Changing the state of the buffer of block `b` keeps every block that
    /// the cache holds inside the image.
    pub proof fn lemma_within_after_update(
        &self,
        old: &HandleTable,
        b: u32,
        x: BufferBlock,
        img: Image,
    )
        requires
            old.wf(),
            old.resident(b),
            old.within(img),
            b < img.len(),
            x.block_id == b,
            self.same_but(old, b),
            self.shard(b) == old.shard(b).update(slot(old.shard(b), b), x),
        ensures
            self.within(img),
    {
        let kb = old.shard_of(b);
        assert forall|k: int| 0 <= k < self.handles@.len() implies (
        #[trigger] self.handles@[k]).within(img) by {
            assert(old.handles@[k].within(img));
            if k != kb {
                assert(self.handles@[k] == old.handles@[k]);
            }
        }
    }
}

impl HandleTable {
    /// Every block can be taken: each shard has a buffer that nobody holds,
    /// and no handle count is at its limit.
    pub open spec fn roomy(&self) -> bool {
        &&& forall|k: int|
            0 <= k < self.handles@.len() ==> pin_count((#[trigger] self.handles@[k]).bufs@)
                < self.handles@[k].bufs@.len()
        &&& forall|c: u32| #[trigger] self.resident(c) ==> self.buf(c).refs < u32::MAX
    }

    /// The cache is in order, agrees with the image, and has room.
    pub open spec fn ok(&self, img: Image) -> bool {
        &&& self.wf()
        &&& self.within(img)
        &&& self.agrees(img)
        &&& self.roomy()
    }

    /// `self` came from `old` by work that left no handle behind: the
    /// shards have the sizes and the numbers of held buffers that they had,
    /// and a block is held now just as often as it was held before.
    pub open spec fn settled(&self, old: &HandleTable) -> bool {
        &&& self.pool_size() == old.pool_size()
        &&& self.handles@.len() == old.handles@.len()
        &&& forall|k: int|
            0 <= k < self.handles@.len() ==> (#[trigger] self.handles@[k]).bufs@.len()
                == old.handles@[k].bufs@.len() && pin_count(self.handles@[k].bufs@) == pin_count(
                old.handles@[k].bufs@,
            )
        &&& forall|c: u32|
            #[trigger] old.resident(c) && old.buf(c).refs > 0 ==> self.resident(c) && self.buf(
                c,
            ).refs == old.buf(c).refs
        &&& forall|c: u32|
            #[trigger] self.resident(c) && self.buf(c).refs > 0 ==> old.resident(c) && old.buf(
                c,
            ).refs == self.buf(c).refs
    }

    /// `self` came from `old` by work on block `b` alone that left the
    /// block in the cache, held as often as before.
    pub open spec fn touched(&self, old: &HandleTable, b: u32) -> bool {
        &&& self.kept(old, b)
        &&& self.resident(b)
        &&& self.buf(b).refs == (if old.resident(b) {
            old.buf(b).refs
        } else {
            0
        })
        &&& pin_count(self.shard(b)) == pin_count(old.shard(b))
    }

    /// A cache with room in every shard has room for any block.
    pub proof fn lemma_roomy_has_room(&self, b: u32)
        requires
            self.wf(),
            self.roomy(),
        ensures
            self.has_room(b),
    {
        let k = self.shard_of(b);
        assert(pin_count(self.handles@[k].bufs@) < self.handles@[k].bufs@.len());
    }

    /// Work on one block that left the block held as often as before has
    /// left no handle behind.
    pub proof fn lemma_touched_settled(&self, old: &HandleTable, b: u32)
        requires
            0 < old.handles@.len(),
            self.touched(old, b),
        ensures
            self.settled(old),
    {
        self.lemma_same_shape(old);
        assert forall|k: int| 0 <= k < self.handles@.len() implies (
        #[trigger] self.handles@[k]).bufs@.len() == old.handles@[k].bufs@.len() && pin_count(
            self.handles@[k].bufs@,
        ) == pin_count(old.handles@[k].bufs@) by {
            if k == old.shard_of(b) {
                assert(self.shard(b) == self.handles@[k].bufs@);
            }
        }
        assert forall|c: u32| #[trigger] old.resident(c) && old.buf(c).refs > 0 implies self.resident(
            c,
        ) && self.buf(c).refs == old.buf(c).refs by {
            if c != b {
                if !self.resident(c) {
                    assert(old.buf(c).refs == 0);
                }
                assert(self.resident(c));
            }
        }
    }

    /// `settled` carries over two steps.
    pub proof fn lemma_settled_trans(&self, mid: &HandleTable, old: &HandleTable)
        requires
            mid.settled(old),
            self.settled(mid),
        ensures
            self.settled(old),
    {
        assert forall|k: int| 0 <= k < self.handles@.len() implies (
        #[trigger] self.handles@[k]).bufs@.len() == old.handles@[k].bufs@.len() && pin_count(
            self.handles@[k].bufs@,
        ) == pin_count(old.handles@[k].bufs@) by {
            assert(mid.handles@[k].bufs@.len() == old.handles@[k].bufs@.len());
        }
        assert forall|c: u32| #[trigger] old.resident(c) && old.buf(c).refs > 0 implies self.resident(
            c,
        ) && self.buf(c).refs == old.buf(c).refs by {
            assert(mid.resident(c));
        }
        assert forall|c: u32| #[trigger] self.resident(c) && self.buf(c).refs > 0 implies old.resident(
            c,
        ) && old.buf(c).refs == self.buf(c).refs by {
            assert(mid.resident(c));
        }
    }

    /// Work that left no handle behind leaves room where there was room.
    pub proof fn lemma_roomy_settled(&self, old: &HandleTable)
        requires
            old.roomy(),
            self.settled(old),
        ensures
            self.roomy(),
    {
        assert forall|k: int| 0 <= k < self.handles@.len() implies pin_count(
            (#[trigger] self.handles@[k]).bufs@,
        ) < self.handles@[k].bufs@.len() by {
            assert(pin_count(old.handles@[k].bufs@) < old.handles@[k].bufs@.len());
        }
        assert forall|c: u32| #[trigger] self.resident(c) implies self.buf(c).refs < u32::MAX by {
            if self.buf(c).refs > 0 {
                assert(old.resident(c));
            }
        }
    }
}

impl HandleTable {
    /// A block whose buffer nobody holds reads as the image has it.
    pub proof fn lemma_overlay_clean(&self, img: Image, b: u32)
        requires
            self.wf(),
            self.agrees(img),
            b < img.len(),
            self.resident(b) ==> self.buf(b).refs == 0,
        ensures
            self.overlay(img)[b as int] == img[b as int],
    {
        if self.resident(b) {
            let k = self.shard_of(b);
            let sh = self.shard(b);
            let i = slot(sh, b);
            assert(sh[i].has(b));
            assert(shard_ok(self.handles@[k].bufs@, img));
        }
    }

    /// A cache has kept what it holds.
    pub proof fn lemma_kept_refl(&self, b: u32)
        ensures
            self.kept(self, b),
    {
    }

    /// A cache has as many buffers and held buffers as itself.
    pub proof fn lemma_settled_refl(&self)
        ensures
            self.settled(self),
    {
    }

    /// `touched` carries over two steps.
    pub proof fn lemma_touched_trans(&self, mid: &HandleTable, old: &HandleTable, b: u32)
        requires
            0 < old.handles@.len(),
            mid.touched(old, b),
            self.touched(mid, b),
        ensures
            self.touched(old, b),
    {
        self.lemma_kept_trans(mid, old, b);
        assert(self.shard(b) == self.handles@[old.shard_of(b)].bufs@);
        assert(mid.shard(b) == mid.handles@[old.shard_of(b)].bufs@);
    }

    /// A buffer that nobody holds does not count as held.
    pub proof fn lemma_no_pins(&self)
        requires
            self.wf(),
            forall|c: u32| #[trigger] self.resident(c) ==> self.buf(c).refs == 0,
        ensures
            forall|k: int|
                0 <= k < self.handles@.len() ==> pin_count((#[trigger] self.handles@[k]).bufs@)
                    == 0,
    {
        assert forall|k: int| 0 <= k < self.handles@.len() implies pin_count(
            (#[trigger] self.handles@[k]).bufs@,
        ) == 0 by {
            let s = self.handles@[k].bufs@;
            assert(self.handles@[k].wf());
            assert forall|i: int| 0 <= i < s.len() implies (#[trigger] s[i]).refs == 0 by {
                if s[i].loaded {
                    let c = s[i].block_id;
                    assert(self.shard_of(c) == k);
                    lemma_slot_unique(s, c, i);
                    assert(self.resident(c));
                } else {
                    assert(s[i].wf());
                }
            }
            lemma_pin_count_zero(s);
        }
    }
}

/// Where no buffer is held, the number of held buffers is 0.
pub proof fn lemma_pin_count_zero(s: Seq<BufferBlock>)
    requires
        forall|i: int| 0 <= i < s.len() ==> (#[trigger] s[i]).refs == 0,
    ensures
        pin_count(s) == 0,
    decreases s.len(),
{
    if s.len() > 0 {
        assert forall|i: int| 0 <= i < s.drop_last().len() implies (#[trigger] s.drop_last()[i]).refs
            == 0 by {
            assert(s.drop_last()[i] == s[i]);
        }
        lemma_pin_count_zero(s.drop_last());
    }
}

/// The bytes of block `block_id` as a reader of the volume sees them; the
/// cache loads the block if it does not hold it.
pub fn get_buffer_block<D: BlockDevice>(vol: &mut Volume<D>, block_id: u32) -> (data: [u8; 512])
    requires
        old(vol).inv(),
        block_id < old(vol).sb.size,
    ensures
        final(vol).inv(),
        final(vol).stays(old(vol)),
        final(vol).state() == old(vol).state(),
        data@ == old(vol).image()[block_id as int],
{
    vol.bread(block_id)
}

/// The number of buffers of the first `k` shards.
pub open spec fn buffers_upto(h: Seq<LruHandle>, k: int) -> nat
    decreases k,
{
    if k <= 0 {
        0
    } else {
        buffers_upto(h, k - 1) + h[k - 1].bufs@.len()
    }
}

/// The number of buffers that hold a block.
pub open spec fn loaded_count(s: Seq<BufferBlock>) -> nat
    decreases s.len(),
{
    if s.len() == 0 {
        0
    } else {
        loaded_count(s.drop_last()) + (if s.last().loaded {
            1nat
        } else {
            0nat
        })
    }
}

/// The number of buffers of the first `k` shards that hold a block.
pub open spec fn loaded_upto(h: Seq<LruHandle>, k: int) -> nat
    decreases k,
{
    if k <= 0 {
        0
    } else {
        loaded_upto(h, k - 1) + loaded_count(h[k - 1].bufs@)
    }
}

/// A shard holds no more blocks than it has buffers.
pub proof fn lemma_loaded_count(s: Seq<BufferBlock>)
    ensures
        loaded_count(s) <= s.len(),
    decreases s.len(),
{
    if s.len() > 0 {
        lemma_loaded_count(s.drop_last());
    }
}

/// The first `k` shards hold no more blocks than they have buffers.
pub proof fn lemma_loaded_upto(h: Seq<LruHandle>, k: int)
    requires
        0 <= k <= h.len(),
    ensures
        loaded_upto(h, k) <= buffers_upto(h, k),
    decreases k,
{
    if k > 0 {
        lemma_loaded_upto(h, k - 1);
        lemma_loaded_count(h[k - 1].bufs@);
    }
}

/// Shards of the same sizes have the same number of buffers.
pub proof fn lemma_buffers_upto_same(a: Seq<LruHandle>, b: Seq<LruHandle>, k: int)
    requires
        0 <= k <= a.len(),
        a.len() == b.len(),
        forall|j: int| 0 <= j < a.len() ==> (#[trigger] a[j]).bufs@.len() == b[j].bufs@.len(),
    ensures
        buffers_upto(a, k) == buffers_upto(b, k),
    decreases k,
{
    if k > 0 {
        lemma_buffers_upto_same(a, b, k - 1);
        assert(a[k - 1].bufs@.len() == b[k - 1].bufs@.len());
    }
}

/// `k` shards of `per` buffers each have `k * per` buffers.
pub proof fn lemma_buffers_upto_even(h: Seq<LruHandle>, k: int, per: nat)
    requires
        0 <= k <= h.len(),
        forall|j: int| 0 <= j < h.len() ==> (#[trigger] h[j]).bufs@.len() == per,
    ensures
        buffers_upto(h, k) == k * per,
    decreases k,
{
    if k > 0 {
        lemma_buffers_upto_even(h, k - 1, per);
        assert(h[k - 1].bufs@.len() == per);
        assert((k - 1) * per + per == k * per) by (nonlinear_arith);
    } else {
        assert(0 * per == 0) by (nonlinear_arith);
    }
}

impl HandleTable {
    /// The number of buffers of the cache: the size of the pool.
    pub open spec fn pool_size(&self) -> nat {
        buffers_upto(self.handles@, self.handles@.len() as int)
    }

    /// The number of buffers that hold a block.
    pub open spec fn resident_count(&self) -> nat {
        loaded_upto(self.handles@, self.handles@.len() as int)
    }

    /// `self` has the shards that `old` has, with as many buffers each.
    pub open spec fn same_shape(&self, old: &HandleTable) -> bool {
        &&& self.handles@.len() == old.handles@.len()
        &&& forall|k: int|
            0 <= k < self.handles@.len() ==> (#[trigger] self.handles@[k]).bufs@.len()
                == old.handles@[k].bufs@.len()
    }

    /// The pool is bounded: the cache never holds more blocks than it has
    /// buffers.
    pub proof fn lemma_pool_bound(&self)
        ensures
            self.resident_count() <= self.pool_size(),
    {
        lemma_loaded_upto(self.handles@, self.handles@.len() as int);
    }

    /// A cache of the same shape has a pool of the same size.
    pub proof fn lemma_same_shape(&self, old: &HandleTable)
        requires
            self.same_shape(old),
        ensures
            self.pool_size() == old.pool_size(),
    {
        lemma_buffers_upto_same(self.handles@, old.handles@, self.handles@.len() as int);
    }

    /// Work on one block leaves the shape of the cache as it was.
    pub proof fn lemma_same_but_shape(&self, old: &HandleTable, b: u32)
        requires
            0 < old.handles@.len(),
            self.same_but(old, b),
            self.shard(b).len() == old.shard(b).len(),
        ensures
            self.same_shape(old),
            self.pool_size() == old.pool_size(),
    {
        assert forall|k: int| 0 <= k < self.handles@.len() implies (
        #[trigger] self.handles@[k]).bufs@.len() == old.handles@[k].bufs@.len() by {
            if k != old.shard_of(b) {
                assert(self.handles@[k] == old.handles@[k]);
            }
        }
        self.lemma_same_shape(old);
    }
}

} // verus!
