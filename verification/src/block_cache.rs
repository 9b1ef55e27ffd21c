//! A bounded pool of dirty-tracked block buffers.
//!
//! Every read or write of the file system goes through one
//! [`BlockCacheManager`], which lends out whole-block buffers loaded from the
//! device and writes dirty ones back on eviction and on explicit sync.  The
//! pool together with the device presents one coherent byte store, described
//! by [`disk_view`]: the device contents with every cached block overridden
//! by its buffer.
use vstd::prelude::*;
use crate::BLOCK_SZ;
use crate::block_dev::{BlockDevice, blocks_wf};

verus! {

/// Capacity of the cache pool, in blocks.
pub const BLOCK_CACHE_SIZE: usize = 16;

/// An in-memory copy of one device block plus a dirty flag.
pub struct BlockCache {
    cache: Vec<u8>,
    block_id: usize,
    modified: bool,
}

impl BlockCache {
    /// The buffered bytes.
    pub closed spec fn bytes(&self) -> Seq<u8> {
        self.cache@
    }

    /// The id of the block this buffer mirrors.
    pub closed spec fn id(&self) -> nat {
        self.block_id as nat
    }

    /// Whether the buffer holds changes not yet written to the device.
    pub closed spec fn dirty(&self) -> bool {
        self.modified
    }

    /// A buffer is well formed when it holds exactly one block.
    pub open spec fn wf(&self) -> bool {
        self.bytes().len() == BLOCK_SZ
    }

    /// Load block `block_id` from the device into a fresh, clean buffer.
    #[verifier::loop_isolation(false)]
    pub fn new<D: BlockDevice>(block_id: usize, block_device: &D) -> (c: BlockCache)
        requires
            blocks_wf(block_device.blocks()),
            block_id < block_device.blocks().len(),
        ensures
            c.wf(),
            c.id() == block_id,
            !c.dirty(),
            c.bytes() == block_device.blocks()[block_id as int],
    {
        let mut cache: Vec<u8> = vec![0u8; BLOCK_SZ];
        block_device.read_block(block_id, &mut cache);
        assert(block_device.blocks()[block_id as int].len() == BLOCK_SZ);
        BlockCache { cache, block_id, modified: false }
    }

    /// Copy `len` buffered bytes starting at `offset`.
    #[verifier::loop_isolation(false)]
    pub fn read(&self, offset: usize, len: usize) -> (r: Vec<u8>)
        requires
            self.wf(),
            offset + len <= BLOCK_SZ,
        ensures
            r@ == self.bytes().subrange(offset as int, offset + len),
    {
        let mut r: Vec<u8> = Vec::new();
        let mut j: usize = 0;
        while j < len
            invariant
                j <= len,
                r@.len() == j,
                forall|k: int| 0 <= k < j ==> r@[k] == self.cache@[offset + k],
            decreases len - j,
        {
            let b = self.cache[offset + j];
            r.push(b);
            j += 1;
        }
        assert(r@ =~= self.bytes().subrange(offset as int, offset + len));
        r
    }

    /// Overwrite the buffered bytes starting at `offset` and mark the buffer
    /// dirty.  The flag is set even when `data` repeats the old bytes: a
    /// spurious write-back of unchanged bytes is harmless.
    #[verifier::loop_isolation(false)]
    pub fn modify(&mut self, offset: usize, data: &Vec<u8>) -> (r: ())
        requires
            old(self).wf(),
            offset + data.len() <= BLOCK_SZ,
        ensures
            final(self).wf(),
            final(self).id() == old(self).id(),
            final(self).dirty(),
            final(self).bytes() == splice(old(self).bytes(), offset as int, data@),
    {
        let mut j: usize = 0;
        while j < data.len()
            invariant
                j <= data@.len(),
                self.cache@.len() == old(self).cache@.len(),
                self.block_id == old(self).block_id,
                self.modified == old(self).modified,
                forall|k: int| 0 <= k < j ==> self.cache@[offset + k] == data@[k],
                forall|k: int|
                    0 <= k < self.cache@.len() && !(offset <= k < offset + j)
                        ==> self.cache@[k] == old(self).cache@[k],
            decreases data@.len() - j,
        {
            let b = data[j];
            self.cache.set(offset + j, b);
            j += 1;
        }
        self.modified = true;
        assert(self.bytes() =~= splice(old(self).bytes(), offset as int, data@));
    }

    /// If the buffer is dirty, write it back to the device and clear the flag.
    pub fn sync<D: BlockDevice>(&mut self, block_device: &mut D) -> (r: ())
        requires
            old(self).wf(),
            blocks_wf(old(block_device).blocks()),
            old(self).id() < old(block_device).blocks().len(),
        ensures
            final(self).wf(),
            final(self).id() == old(self).id(),
            final(self).bytes() == old(self).bytes(),
            !final(self).dirty(),
            blocks_wf(final(block_device).blocks()),
            old(self).dirty() ==> final(block_device).blocks() == old(block_device).blocks()
                .update(old(self).id() as int, old(self).bytes()),
            !old(self).dirty() ==> final(block_device).blocks() == old(block_device).blocks(),
    {
        if self.modified {
            self.modified = false;
            block_device.write_block(self.block_id, &self.cache);
        }
    }
}

/// `s` with `data` written in at `off`.
pub open spec fn splice(s: Seq<u8>, off: int, data: Seq<u8>) -> Seq<u8> {
    Seq::new(s.len(), |i: int| if off <= i < off + data.len() { data[i - off] } else { s[i] })
}

/// Whether some pool entry buffers block `id`.
pub open spec fn has_cached(pool: Seq<BlockCache>, id: int) -> bool {
    exists|j: int| 0 <= j < pool.len() && (#[trigger] pool[j]).id() == id
}

/// The index of the pool entry buffering block `id`, when there is one.
pub open spec fn cached_idx(pool: Seq<BlockCache>, id: int) -> int {
    choose|j: int| 0 <= j < pool.len() && (#[trigger] pool[j]).id() == id
}

/// The buffered bytes of block `id`, when it is cached.
pub open spec fn cached_bytes(pool: Seq<BlockCache>, id: int) -> Seq<u8> {
    pool[cached_idx(pool, id)].bytes()
}

/// No two pool entries buffer the same block.
pub open spec fn distinct_ids(pool: Seq<BlockCache>) -> bool {
    forall|i: int, j: int|
        0 <= i < pool.len() && 0 <= j < pool.len() && i != j
            ==> (#[trigger] pool[i]).id() != (#[trigger] pool[j]).id()
}

/// The pool invariant against the device contents `base`: within capacity,
/// whole well-formed buffers of distinct in-range blocks, and every clean
/// buffer agreeing with the device.
pub open spec fn pool_wf(pool: Seq<BlockCache>, base: Seq<Seq<u8>>) -> bool {
    &&& pool.len() <= BLOCK_CACHE_SIZE
    &&& distinct_ids(pool)
    &&& forall|i: int| 0 <= i < pool.len() ==> (#[trigger] pool[i]).wf()
    &&& forall|i: int| 0 <= i < pool.len() ==> (#[trigger] pool[i]).id() < base.len()
    &&& forall|i: int|
        0 <= i < pool.len() && !(#[trigger] pool[i]).dirty()
            ==> pool[i].bytes() == base[pool[i].id() as int]
}

/// The byte store that the cache and the device together present: the device
/// contents with every cached block overridden by its buffer.
pub open spec fn disk_view(pool: Seq<BlockCache>, base: Seq<Seq<u8>>) -> Seq<Seq<u8>> {
    Seq::new(
        base.len(),
        |i: int| if has_cached(pool, i) { cached_bytes(pool, i) } else { base[i] },
    )
}

/// A well-formed pool over well-formed device contents presents a store of
/// whole blocks.
pub proof fn lemma_disk_view_wf(pool: Seq<BlockCache>, base: Seq<Seq<u8>>)
    requires
        pool_wf(pool, base),
        blocks_wf(base),
    ensures
        blocks_wf(disk_view(pool, base)),
        disk_view(pool, base).len() == base.len(),
{
    let v = disk_view(pool, base);
    assert forall|i: int| 0 <= i < v.len() implies (#[trigger] v[i]).len() == BLOCK_SZ by {
        if has_cached(pool, i) {
            let j = cached_idx(pool, i);
            assert(pool[j].wf());
        }
    }
}

/// Removing the front entry shifts every other entry down by one.
pub proof fn lemma_pool_shift(pool: Seq<BlockCache>)
    requires
        pool.len() > 0,
    ensures
        pool.remove(0).len() == pool.len() - 1,
        forall|i: int| 0 <= i < pool.len() - 1 ==> pool.remove(0)[i] == pool[i + 1],
{
    assert forall|i: int| 0 <= i < pool.len() - 1 implies pool.remove(0)[i] == pool[i + 1] by {
        assert(pool.remove(0)[i] == pool[i + 1]);
    }
}

/// With distinct ids, the entry at index `j` is the one and only witness for
/// its block id.
pub proof fn lemma_cached_at(pool: Seq<BlockCache>, j: int)
    requires
        distinct_ids(pool),
        0 <= j < pool.len(),
    ensures
        has_cached(pool, pool[j].id() as int),
        cached_idx(pool, pool[j].id() as int) == j,
        cached_bytes(pool, pool[j].id() as int) == pool[j].bytes(),
{
    let id = pool[j].id() as int;
    assert(0 <= j < pool.len() && pool[j].id() == id);
    let k = cached_idx(pool, id);
    assert(0 <= k < pool.len() && pool[k].id() == id);
    if k != j {
        assert(pool[k].id() != pool[j].id());
    }
}

/// The process-wide pool of block buffers.
pub struct BlockCacheManager {
    pool: Vec<BlockCache>,
}

impl BlockCacheManager {
    /// The pool entries.
    pub closed spec fn entries(&self) -> Seq<BlockCache> {
        self.pool@
    }

    /// The manager invariant against the device contents `base`.
    pub open spec fn wf(&self, base: Seq<Seq<u8>>) -> bool {
        pool_wf(self.entries(), base)
    }

    /// No buffer in the pool holds unwritten changes.
    pub open spec fn all_clean(&self) -> bool {
        forall|i: int| 0 <= i < self.entries().len() ==> !(#[trigger] self.entries()[i]).dirty()
    }

    /// An empty pool.
    pub fn new() -> (m: BlockCacheManager)
        ensures
            m.entries().len() == 0,
            m.all_clean(),
    {
        BlockCacheManager { pool: Vec::new() }
    }

    /// Return the index of the pool entry buffering `block_id`, loading the
    /// block on a miss and first evicting the oldest buffer when the pool is
    /// full.  The combined byte store is unchanged.
    #[verifier::loop_isolation(false)]
    pub fn get_block_cache<D: BlockDevice>(
        &mut self,
        block_id: usize,
        block_device: &mut D,
    ) -> (idx: usize)
        requires
            old(self).wf(old(block_device).blocks()),
            blocks_wf(old(block_device).blocks()),
            block_id < old(block_device).blocks().len(),
        ensures
            final(self).wf(final(block_device).blocks()),
            blocks_wf(final(block_device).blocks()),
            final(block_device).blocks().len() == old(block_device).blocks().len(),
            disk_view(final(self).entries(), final(block_device).blocks())
                == disk_view(old(self).entries(), old(block_device).blocks()),
            idx < final(self).entries().len(),
            final(self).entries()[idx as int].id() == block_id,
    {
        let ghost view0 = disk_view(self.entries(), block_device.blocks());
        let mut k: usize = 0;
        while k < self.pool.len()
            invariant
                k <= self.pool@.len(),
                forall|i: int| 0 <= i < k ==> (#[trigger] self.pool@[i]).id() != block_id,
            decreases self.pool@.len() - k,
        {
            let c = &self.pool[k];
            if c.block_id == block_id {
                return k;
            }
            k += 1;
        }
        assert(!has_cached(self.pool@, block_id as int));
        if self.pool.len() == BLOCK_CACHE_SIZE {
            let ghost pool0 = self.pool@;
            let ghost dev0 = block_device.blocks();
            let mut victim = self.pool.remove(0);
            proof {
                lemma_pool_shift(pool0);
            }
            victim.sync(block_device);
            proof {
                lemma_cached_at(pool0, 0);
                let pool1 = self.pool@;
                let devs = block_device.blocks();
                // the shifted pool keeps the invariant and the view
                assert forall|i: int| 0 <= i < pool1.len() implies (#[trigger] pool1[i]).wf()
                    && pool1[i].id() < devs.len()
                    && (!pool1[i].dirty() ==> pool1[i].bytes() == devs[pool1[i].id() as int])
                    && pool1[i].id() != block_id by {
                    assert(pool1[i] == pool0[i + 1]);
                    assert(pool0[i + 1].id() != pool0[0].id());
                }
                assert forall|i: int, j: int|
                    0 <= i < pool1.len() && 0 <= j < pool1.len() && i != j implies
                    (#[trigger] pool1[i]).id() != (#[trigger] pool1[j]).id() by {
                    assert(pool1[i] == pool0[i + 1]);
                    assert(pool1[j] == pool0[j + 1]);
                }
                assert forall|i: int| 0 <= i < devs.len() implies
                    disk_view(pool1, devs)[i] == view0[i] by {
                    if has_cached(pool1, i) {
                        let j = cached_idx(pool1, i);
                        assert(pool1[j] == pool0[j + 1]);
                        lemma_cached_at(pool0, j + 1);
                        assert(cached_bytes(pool1, i) == cached_bytes(pool0, i));
                    } else {
                        if has_cached(pool0, i) {
                            let j = cached_idx(pool0, i);
                            assert(0 <= j < pool0.len() && pool0[j].id() == i);
                            if j != 0 {
                                assert(pool1[j - 1] == pool0[j]);
                                assert(has_cached(pool1, i));
                            }
                            // j == 0: the evicted entry, now synced to the device
                            assert(victim.bytes() == pool0[0].bytes());
                            assert(devs[i] == victim.bytes());
                            assert(view0[i] == cached_bytes(pool0, i));
                            assert(cached_bytes(pool0, i) == pool0[0].bytes());
                        } else {
                            assert(devs[i] == dev0[i]);
                        }
                    }
                }
                assert(disk_view(pool1, devs) =~= view0);
            }
        }
        let ghost pool1 = self.pool@;
        let ghost dev1 = block_device.blocks();
        assert(!has_cached(pool1, block_id as int));
        let cache = BlockCache::new(block_id, block_device);
        self.pool.push(cache);
        let idx = self.pool.len() - 1;
        proof {
            assert forall|i: int| 0 <= i < dev1.len() implies
                disk_view(self.pool@, dev1)[i] == disk_view(pool1, dev1)[i] by {
                if has_cached(self.pool@, i) {
                    let j = cached_idx(self.pool@, i);
                    if j < pool1.len() {
                        assert(self.pool@[j] == pool1[j]);
                        lemma_cached_at(pool1, j);
                        assert(cached_bytes(self.pool@, i) == cached_bytes(pool1, i));
                    } else {
                        // the new entry: clean, equal to the device contents
                        assert(self.pool@[j].id() == block_id);
                        assert(i == block_id);
                        assert(cached_bytes(self.pool@, i) == dev1[i]);
                    }
                } else {
                    if has_cached(pool1, i) {
                        let j2 = cached_idx(pool1, i);
                        assert(self.pool@[j2] == pool1[j2]);
                        assert(has_cached(self.pool@, i));
                    }
                }
            }
            assert(disk_view(self.pool@, dev1) =~= disk_view(pool1, dev1));
            assert(disk_view(pool1, dev1) =~= view0);
        }
        idx
    }

    /// Copy `len` bytes of block `block_id` starting at byte `offset`, as the
    /// combined byte store presents them.
    pub fn read_bytes<D: BlockDevice>(
        &mut self,
        block_device: &mut D,
        block_id: usize,
        offset: usize,
        len: usize,
    ) -> (r: Vec<u8>)
        requires
            old(self).wf(old(block_device).blocks()),
            blocks_wf(old(block_device).blocks()),
            block_id < old(block_device).blocks().len(),
            offset + len <= BLOCK_SZ,
        ensures
            final(self).wf(final(block_device).blocks()),
            blocks_wf(final(block_device).blocks()),
            final(block_device).blocks().len() == old(block_device).blocks().len(),
            disk_view(final(self).entries(), final(block_device).blocks())
                == disk_view(old(self).entries(), old(block_device).blocks()),
            r@ == disk_view(old(self).entries(), old(block_device).blocks())[block_id as int]
                .subrange(offset as int, offset + len),
    {
        let idx = self.get_block_cache(block_id, block_device);
        let c = &self.pool[idx];
        proof {
            lemma_cached_at(self.pool@, idx as int);
        }
        c.read(offset, len)
    }

    /// Overwrite `data.len()` bytes of block `block_id` starting at byte
    /// `offset`.  The change lands in the cache; the device sees it on sync
    /// or eviction.
    pub fn write_bytes<D: BlockDevice>(
        &mut self,
        block_device: &mut D,
        block_id: usize,
        offset: usize,
        data: &Vec<u8>,
    ) -> (r: ())
        requires
            old(self).wf(old(block_device).blocks()),
            blocks_wf(old(block_device).blocks()),
            block_id < old(block_device).blocks().len(),
            offset + data.len() <= BLOCK_SZ,
        ensures
            final(self).wf(final(block_device).blocks()),
            blocks_wf(final(block_device).blocks()),
            final(block_device).blocks().len() == old(block_device).blocks().len(),
            disk_view(final(self).entries(), final(block_device).blocks())
                == disk_view(old(self).entries(), old(block_device).blocks()).update(
                block_id as int,
                splice(
                    disk_view(old(self).entries(), old(block_device).blocks())[block_id as int],
                    offset as int,
                    data@,
                ),
            ),
    {
        let ghost view0 = disk_view(old(self).entries(), old(block_device).blocks());
        let idx = self.get_block_cache(block_id, block_device);
        let ghost pool1 = self.pool@;
        let ghost dev1 = block_device.blocks();
        proof {
            lemma_cached_at(pool1, idx as int);
        }
        let mut c = self.pool.remove(idx);
        c.modify(offset, data);
        self.pool.insert(idx, c);
        proof {
            assert(self.pool@ =~= pool1.update(idx as int, c));
            let pool2 = self.pool@;
            assert forall|i: int, j: int|
                0 <= i < pool2.len() && 0 <= j < pool2.len() && i != j implies
                (#[trigger] pool2[i]).id() != (#[trigger] pool2[j]).id() by {
                assert(pool1[i].id() != pool1[j].id());
            }
            assert forall|i: int| 0 <= i < dev1.len() implies
                disk_view(pool2, dev1)[i]
                    == disk_view(pool1, dev1).update(
                    block_id as int,
                    splice(disk_view(pool1, dev1)[block_id as int], offset as int, data@),
                )[i] by {
                if i == block_id {
                    lemma_cached_at(pool2, idx as int);
                    assert(cached_bytes(pool2, i) == c.bytes());
                    assert(disk_view(pool1, dev1)[i] == cached_bytes(pool1, i));
                    assert(cached_bytes(pool1, i) == pool1[idx as int].bytes());
                } else {
                    if has_cached(pool2, i) {
                        let j = cached_idx(pool2, i);
                        assert(j != idx);
                        assert(pool2[j] == pool1[j]);
                        lemma_cached_at(pool1, j);
                        assert(cached_bytes(pool2, i) == cached_bytes(pool1, i));
                    } else {
                        if has_cached(pool1, i) {
                            let j = cached_idx(pool1, i);
                            assert(j != idx);
                            assert(pool2[j] == pool1[j]);
                            assert(has_cached(pool2, i));
                        }
                    }
                }
            }
            assert(disk_view(pool2, dev1) =~= disk_view(pool1, dev1).update(
                block_id as int,
                splice(disk_view(pool1, dev1)[block_id as int], offset as int, data@),
            ));
            assert(disk_view(pool1, dev1) == view0);
        }
    }

    /// Write every dirty buffer back to the device.  Afterwards no buffer is
    /// dirty and the device holds exactly the combined byte store.
    #[verifier::loop_isolation(false)]
    pub fn block_cache_sync_all<D: BlockDevice>(&mut self, block_device: &mut D) -> (r: ())
        requires
            old(self).wf(old(block_device).blocks()),
            blocks_wf(old(block_device).blocks()),
        ensures
            final(self).wf(final(block_device).blocks()),
            blocks_wf(final(block_device).blocks()),
            final(block_device).blocks().len() == old(block_device).blocks().len(),
            disk_view(final(self).entries(), final(block_device).blocks())
                == disk_view(old(self).entries(), old(block_device).blocks()),
            final(self).all_clean(),
            final(block_device).blocks()
                == disk_view(old(self).entries(), old(block_device).blocks()),
    {
        let ghost view0 = disk_view(self.entries(), block_device.blocks());
        let mut k: usize = 0;
        while k < self.pool.len()
            invariant
                k <= self.pool@.len(),
                self.pool@.len() == old(self).entries().len(),
                blocks_wf(block_device.blocks()),
                block_device.blocks().len() == old(block_device).blocks().len(),
                pool_wf(self.pool@, block_device.blocks()),
                disk_view(self.pool@, block_device.blocks()) == view0,
                forall|i: int| 0 <= i < k ==> !(#[trigger] self.pool@[i]).dirty(),
                forall|i: int|
                    0 <= i < self.pool@.len() ==> (#[trigger] self.pool@[i]).id()
                        == old(self).entries()[i].id(),
            decreases self.pool@.len() - k,
        {
            let ghost pool1 = self.pool@;
            let ghost dev1 = block_device.blocks();
            let mut c = self.pool.remove(k);
            c.sync(block_device);
            self.pool.insert(k, c);
            proof {
                assert(self.pool@ =~= pool1.update(k as int, c));
                let pool2 = self.pool@;
                let dev2 = block_device.blocks();
                assert forall|i: int, j: int|
                    0 <= i < pool2.len() && 0 <= j < pool2.len() && i != j implies
                    (#[trigger] pool2[i]).id() != (#[trigger] pool2[j]).id() by {
                    assert(pool1[i].id() != pool1[j].id());
                }
                // every other entry's block is untouched on the device
                assert forall|i: int|
                    0 <= i < pool2.len() && !(#[trigger] pool2[i]).dirty() implies
                    pool2[i].bytes() == dev2[pool2[i].id() as int] by {
                    if i == k {
                        assert(pool2[i].bytes() == dev2[pool2[i].id() as int]);
                    } else {
                        assert(pool2[i] == pool1[i]);
                        assert(pool1[i].id() != pool1[k as int].id());
                    }
                }
                assert forall|i: int| 0 <= i < dev2.len() implies
                    disk_view(pool2, dev2)[i] == disk_view(pool1, dev1)[i] by {
                    if has_cached(pool2, i) {
                        let j = cached_idx(pool2, i);
                        assert(pool2[j].id() == i);
                        assert(pool1[j].id() == i);
                        lemma_cached_at(pool1, j);
                        if j == k {
                            assert(cached_bytes(pool2, i) == c.bytes());
                            assert(cached_bytes(pool1, i) == pool1[k as int].bytes());
                        } else {
                            assert(pool2[j] == pool1[j]);
                        }
                    } else {
                        if has_cached(pool1, i) {
                            let j = cached_idx(pool1, i);
                            assert(pool2[j].id() == pool1[j].id());
                            assert(has_cached(pool2, i));
                        }
                        // i is not cached: the sync wrote block pool1[k].id(),
                        // which is cached, so dev2[i] == dev1[i]
                        assert(pool2[k as int].id() == pool1[k as int].id());
                        assert(has_cached(pool2, pool1[k as int].id() as int)) by {
                            assert(pool2[k as int].id() == pool1[k as int].id());
                        }
                        assert(i != pool1[k as int].id());
                        assert(dev2[i] == dev1[i]);
                    }
                }
                assert(disk_view(pool2, dev2) =~= disk_view(pool1, dev1));
            }
            k += 1;
        }
        proof {
            let pool = self.pool@;
            let devs = block_device.blocks();
            assert forall|i: int| 0 <= i < devs.len() implies devs[i] == view0[i] by {
                if has_cached(pool, i) {
                    let j = cached_idx(pool, i);
                    assert(!pool[j].dirty());
                    assert(pool[j].bytes() == devs[pool[j].id() as int]);
                } else {
                }
            }
            assert(devs =~= view0);
        }
    }
}

} // verus!
