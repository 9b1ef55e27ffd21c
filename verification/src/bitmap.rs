//! The bitmap allocator used for both inodes and data blocks.
//!
//! A [`Bitmap`] is a descriptor of a contiguous run of bitmap blocks on the
//! disk; the bits themselves live in the combined byte store.  Bit `b` of a
//! bitmap is bit `b % 8` of byte `(b / 8) % BLOCK_SZ` of block
//! `start + (b / 8) / BLOCK_SZ`, with bit 0 the least significant bit of its
//! byte.  Allocation always returns the lowest clear bit, which keeps the
//! root inode stable at bit 0.
use vstd::prelude::*;
use vstd::arithmetic::div_mod::{
    lemma_fundamental_div_mod_converse_div, lemma_fundamental_div_mod_converse_mod,
};
use crate::BLOCK_SZ;
use crate::block_dev::{BlockDevice, blocks_wf};
use crate::block_cache::{BlockCacheManager, disk_view, splice, lemma_disk_view_wf};

verus! {

/// Number of allocation bits held by one bitmap block.
pub const BLOCK_BITS: usize = BLOCK_SZ * 8;

/// Whether bit `b` of the bitmap occupying blocks `start..` of `disk` is set.
pub open spec fn bitmap_bit(disk: Seq<Seq<u8>>, start: int, b: int) -> bool {
    (disk[start + (b / 8) / (BLOCK_SZ as int)][(b / 8) % (BLOCK_SZ as int)] >> ((b % 8) as u8))
        & 1u8 == 1u8
}

/// The first `n` bits of the bitmap at `start` are all set.
pub open spec fn all_bits_set(disk: Seq<Seq<u8>>, start: int, n: int) -> bool {
    forall|b: int| 0 <= b < n ==> bitmap_bit(disk, start, b)
}

/// Decompose a bit index into its block, byte within the block, and bit
/// within the byte.
pub proof fn lemma_bit_index(b: int)
    requires
        0 <= b,
    ensures
        b == ((b / 8) / (BLOCK_SZ as int)) * (BLOCK_BITS as int) + ((b / 8) % (BLOCK_SZ as int))
            * 8 + b % 8,
        0 <= b % 8 < 8,
        0 <= (b / 8) % (BLOCK_SZ as int) < BLOCK_SZ,
        0 <= (b / 8) / (BLOCK_SZ as int),
{
}

/// The inverse: a (block, byte, bit) triple names bit
/// `block * BLOCK_BITS + byte * 8 + bit`, and the decomposition of that index
/// returns the triple.
pub proof fn lemma_bit_compose(blk: int, byte: int, bit: int)
    requires
        0 <= blk,
        0 <= byte < BLOCK_SZ,
        0 <= bit < 8,
    ensures
        ({
            let b = blk * (BLOCK_BITS as int) + byte * 8 + bit;
            &&& b / 8 == blk * (BLOCK_SZ as int) + byte
            &&& b % 8 == bit
            &&& (b / 8) / (BLOCK_SZ as int) == blk
            &&& (b / 8) % (BLOCK_SZ as int) == byte
        }),
{
    let b = blk * (BLOCK_BITS as int) + byte * 8 + bit;
    assert(b == (blk * (BLOCK_SZ as int) + byte) * 8 + bit) by (nonlinear_arith)
        requires
            b == blk * (BLOCK_BITS as int) + byte * 8 + bit,
            BLOCK_BITS == BLOCK_SZ * 8,
    ;
    lemma_fundamental_div_mod_converse_div(b, 8, blk * (BLOCK_SZ as int) + byte, bit);
    lemma_fundamental_div_mod_converse_mod(b, 8, blk * (BLOCK_SZ as int) + byte, bit);
    lemma_fundamental_div_mod_converse_div(blk * (BLOCK_SZ as int) + byte, BLOCK_SZ as int, blk, byte);
    lemma_fundamental_div_mod_converse_mod(blk * (BLOCK_SZ as int) + byte, BLOCK_SZ as int, blk, byte);
}

/// A contiguous run of bitmap blocks: `blocks` blocks starting at block
/// `start_block_id`, tracking `blocks * BLOCK_BITS` allocation bits.
pub struct Bitmap {
    start_block_id: usize,
    blocks: usize,
}

impl Bitmap {
    /// First block of the bitmap region.
    pub closed spec fn start(&self) -> int {
        self.start_block_id as int
    }

    /// Number of blocks of the bitmap region.
    pub closed spec fn num_blocks(&self) -> int {
        self.blocks as int
    }

    /// Number of bits the bitmap tracks.
    pub open spec fn capacity(&self) -> int {
        self.num_blocks() * (BLOCK_BITS as int)
    }

    /// The bitmap region lies within a disk of `disk_len` blocks, and its
    /// indices fit the machine.
    pub open spec fn in_range(&self, disk_len: int) -> bool {
        &&& self.start() + self.num_blocks() <= disk_len
        &&& self.start() + self.num_blocks() <= usize::MAX
        &&& self.capacity() <= usize::MAX
    }

    /// A bitmap over blocks `[start_block_id, start_block_id + blocks)`.
    pub fn new(start_block_id: usize, blocks: usize) -> (bm: Bitmap)
        ensures
            bm.start() == start_block_id,
            bm.num_blocks() == blocks,
    {
        Bitmap { start_block_id, blocks }
    }

    /// The number of bits the bitmap can hand out.
    pub fn maxium(&self) -> (r: usize)
        requires
            self.capacity() <= usize::MAX,
        ensures
            r == self.capacity(),
    {
        self.blocks * BLOCK_BITS
    }

    /// Split a bit index into (block within region, byte within block, bit
    /// within byte).
    fn decomposition(bit: usize) -> (r: (usize, usize, usize))
        ensures
            r.0 == (bit as int / 8) / (BLOCK_SZ as int),
            r.1 == (bit as int / 8) % (BLOCK_SZ as int),
            r.2 == bit as int % 8,
    {
        let q = bit / 8;
        (q / BLOCK_SZ, q % BLOCK_SZ, bit % 8)
    }

    /// Set and return the lowest clear bit, or `None` when every bit is set.
    ///
    /// On success the returned bit was clear, every lower bit was set, and
    /// exactly that bit's byte changes on the disk; no other bitmap bit
    /// moves.
    #[verifier::loop_isolation(false)]
    pub fn allocate<D: BlockDevice>(
        &self,
        manager: &mut BlockCacheManager,
        block_device: &mut D,
    ) -> (r: Option<usize>)
        requires
            old(manager).wf(old(block_device).blocks()),
            blocks_wf(old(block_device).blocks()),
            self.in_range(old(block_device).blocks().len() as int),
        ensures
            final(manager).wf(final(block_device).blocks()),
            blocks_wf(final(block_device).blocks()),
            final(block_device).blocks().len() == old(block_device).blocks().len(),
            ({
                let view0 = disk_view(old(manager).entries(), old(block_device).blocks());
                let view1 = disk_view(final(manager).entries(), final(block_device).blocks());
                match r {
                    None => {
                        &&& view1 == view0
                        &&& all_bits_set(view0, self.start(), self.capacity())
                    },
                    Some(b) => {
                        &&& b < self.capacity()
                        &&& !bitmap_bit(view0, self.start(), b as int)
                        &&& all_bits_set(view0, self.start(), b as int)
                        &&& view1.len() == view0.len()
                        &&& forall|p: int|
                            0 <= p < view0.len() && p != self.start() + (b as int / 8) / (
                            BLOCK_SZ as int) ==> view1[p] == view0[p]
                        &&& forall|b2: int|
                            0 <= b2 < self.capacity() ==> bitmap_bit(view1, self.start(), b2)
                                == (b2 == b || bitmap_bit(view0, self.start(), b2))
                    },
                }
            }),
    {
        let ghost view0 = disk_view(manager.entries(), block_device.blocks());
        proof {
            lemma_disk_view_wf(manager.entries(), block_device.blocks());
        }
        let mut inner_id: usize = 0;
        while inner_id < self.blocks
            invariant
                inner_id <= self.blocks,
                manager.wf(block_device.blocks()),
                blocks_wf(block_device.blocks()),
                block_device.blocks().len() == old(block_device).blocks().len(),
                disk_view(manager.entries(), block_device.blocks()) == view0,
                all_bits_set(view0, self.start(), inner_id as int * (BLOCK_BITS as int)),
            decreases self.blocks - inner_id,
        {
            let blk = self.start_block_id + inner_id;
            let bytes = manager.read_bytes(block_device, blk, 0, BLOCK_SZ);
            assert(bytes@ =~= view0[blk as int]);
            let ghost base_bits = inner_id as int * (BLOCK_BITS as int);
            let mut byte_idx: usize = 0;
            while byte_idx < BLOCK_SZ
                invariant
                    byte_idx <= BLOCK_SZ,
                    manager.wf(block_device.blocks()),
                    blocks_wf(block_device.blocks()),
                    block_device.blocks().len() == old(block_device).blocks().len(),
                    disk_view(manager.entries(), block_device.blocks()) == view0,
                    bytes@ == view0[blk as int],
                    all_bits_set(view0, self.start(), base_bits + byte_idx * 8),
                decreases BLOCK_SZ - byte_idx,
            {
                let byte = bytes[byte_idx];
                let ghost byte_base = base_bits + byte_idx * 8;
                if byte != 255 {
                    let mut j: usize = 0;
                    while j < 8
                        invariant
                            j <= 8,
                            manager.wf(block_device.blocks()),
                            blocks_wf(block_device.blocks()),
                            block_device.blocks().len() == old(block_device).blocks().len(),
                            disk_view(manager.entries(), block_device.blocks()) == view0,
                            forall|k: u8| k < j ==> (byte >> k) & 1u8 == 1u8,
                        decreases 8 - j,
                    {
                        if (byte >> (j as u8)) & 1u8 == 0u8 {
                            let bit = inner_id * BLOCK_BITS + byte_idx * 8 + j;
                            proof {
                                lemma_bit_compose(inner_id as int, byte_idx as int, j as int);
                                assert(bit < self.capacity()) by (nonlinear_arith)
                                    requires
                                        inner_id < self.blocks,
                                        byte_idx < BLOCK_SZ,
                                        j < 8,
                                        bit == inner_id * BLOCK_BITS + byte_idx * 8 + j,
                                        self.capacity() == self.num_blocks() * (BLOCK_BITS as int),
                                        self.num_blocks() == self.blocks,
                                        BLOCK_BITS == BLOCK_SZ * 8,
                                ;
                                assert(!bitmap_bit(view0, self.start(), bit as int));
                                assert forall|b2: int| 0 <= b2 < bit implies bitmap_bit(
                                    view0,
                                    self.start(),
                                    b2,
                                ) by {
                                    if b2 >= byte_base {
                                        lemma_bit_index(b2);
                                        let k = b2 % 8;
                                        assert(b2 == byte_base + k) by (nonlinear_arith)
                                            requires
                                                byte_base <= b2 < byte_base + 8,
                                                b2 == ((b2 / 8) / (BLOCK_SZ as int)) * (
                                                BLOCK_BITS as int) + ((b2 / 8) % (BLOCK_SZ as int))
                                                    * 8 + b2 % 8,
                                                byte_base == inner_id as int * (BLOCK_BITS as int)
                                                    + byte_idx as int * 8,
                                                k == b2 % 8,
                                                0 <= k < 8,
                                        ;
                                        lemma_bit_compose(inner_id as int, byte_idx as int, k);
                                        assert((byte >> (k as u8)) & 1u8 == 1u8);
                                    }
                                }
                            }
                            let new_byte = byte | (1u8 << (j as u8));
                            let mut w: Vec<u8> = Vec::new();
                            w.push(new_byte);
                            manager.write_bytes(block_device, blk, byte_idx, &w);
                            proof {
                                let view1 = disk_view(
                                    manager.entries(),
                                    block_device.blocks(),
                                );
                                let jj = j as u8;
                                assert(view0[blk as int].len() == BLOCK_SZ);
                                assert forall|b2: int| 0 <= b2 < self.capacity() implies bitmap_bit(
                                    view1,
                                    self.start(),
                                    b2,
                                ) == (b2 == bit || bitmap_bit(view0, self.start(), b2)) by {
                                    lemma_bit_index(b2);
                                    let q = (b2 / 8) / (BLOCK_SZ as int);
                                    let w2 = (b2 / 8) % (BLOCK_SZ as int);
                                    let k = b2 % 8;
                                    if q == inner_id as int && w2 == byte_idx as int {
                                        let kk = k as u8;
                                        assert(view1[blk as int][byte_idx as int] == new_byte);
                                        if k == j {
                                            assert(b2 == bit) by (nonlinear_arith)
                                                requires
                                                    b2 == q * (BLOCK_BITS as int) + w2 * 8 + k,
                                                    bit == inner_id * BLOCK_BITS + byte_idx * 8
                                                        + j,
                                                    q == inner_id as int,
                                                    w2 == byte_idx as int,
                                                    k == j,
                                            ;
                                            assert(((byte | (1u8 << jj)) >> jj) & 1u8 == 1u8)
                                                by (bit_vector)
                                                requires jj < 8,
                                            ;
                                        } else {
                                            assert(b2 != bit);
                                            assert(((byte | (1u8 << jj)) >> kk) & 1u8 == (byte
                                                >> kk) & 1u8) by (bit_vector)
                                                requires jj < 8, kk < 8, jj != kk,
                                            ;
                                        }
                                    } else {
                                        assert(b2 != bit);
                                        if q != inner_id as int {
                                            assert(view1[self.start() + q] == view0[self.start()
                                                + q]);
                                        } else {
                                            assert(view1[blk as int][w2] == splice(
                                                view0[blk as int],
                                                byte_idx as int,
                                                w@,
                                            )[w2]);
                                            assert(view1[blk as int][w2] == view0[blk as int][w2]);
                                        }
                                    }
                                }
                            }
                            return Some(bit);
                        }
                        proof {
                            let bb = byte;
                            let jj = j as u8;
                            assert((bb >> jj) & 1u8 == 1u8) by (bit_vector)
                                requires (bb >> jj) & 1u8 != 0u8,
                            ;
                        }
                        j += 1;
                    }
                    proof {
                        let b = byte;
                        assert(b == 255u8) by (bit_vector)
                            requires
                                (b >> 0u8) & 1u8 == 1u8,
                                (b >> 1u8) & 1u8 == 1u8,
                                (b >> 2u8) & 1u8 == 1u8,
                                (b >> 3u8) & 1u8 == 1u8,
                                (b >> 4u8) & 1u8 == 1u8,
                                (b >> 5u8) & 1u8 == 1u8,
                                (b >> 6u8) & 1u8 == 1u8,
                                (b >> 7u8) & 1u8 == 1u8,
                        ;
                        assert(false);
                    }
                }
                proof {
                    // every bit of an all-ones byte is set
                    assert forall|b2: int| 0 <= b2 < byte_base + 8 implies bitmap_bit(
                        view0,
                        self.start(),
                        b2,
                    ) by {
                        if b2 >= byte_base {
                            lemma_bit_index(b2);
                            let k = b2 % 8;
                            assert(b2 == byte_base + k) by (nonlinear_arith)
                                requires
                                    byte_base <= b2 < byte_base + 8,
                                    b2 == ((b2 / 8) / (BLOCK_SZ as int)) * (BLOCK_BITS as int) + ((
                                    b2 / 8) % (BLOCK_SZ as int)) * 8 + b2 % 8,
                                    byte_base == inner_id as int * (BLOCK_BITS as int)
                                        + byte_idx as int * 8,
                                    k == b2 % 8,
                                    0 <= k < 8,
                            ;
                            lemma_bit_compose(inner_id as int, byte_idx as int, k);
                            let bv = byte;
                            let kk = k as u8;
                            assert((bv >> kk) & 1u8 == 1u8) by (bit_vector)
                                requires bv == 255u8, kk < 8,
                            ;
                        }
                    }
                }
                byte_idx += 1;
            }
            proof {
                assert((inner_id + 1) as int * (BLOCK_BITS as int) == base_bits + BLOCK_SZ as int
                    * 8) by (nonlinear_arith)
                    requires base_bits == inner_id as int * (BLOCK_BITS as int),
                        BLOCK_BITS == BLOCK_SZ * 8,
                ;
            }
            inner_id += 1;
        }
        proof {
            assert(self.capacity() == self.blocks as int * (BLOCK_BITS as int));
        }
        None
    }

    /// Clear a bit that is currently set.  Exactly that bit's byte changes
    /// on the disk; no other bitmap bit moves.
    #[verifier::loop_isolation(false)]
    pub fn dealloc<D: BlockDevice>(
        &self,
        manager: &mut BlockCacheManager,
        block_device: &mut D,
        bit: usize,
    ) -> (r: ())
        requires
            old(manager).wf(old(block_device).blocks()),
            blocks_wf(old(block_device).blocks()),
            self.in_range(old(block_device).blocks().len() as int),
            bit < self.capacity(),
            bitmap_bit(
                disk_view(old(manager).entries(), old(block_device).blocks()),
                self.start(),
                bit as int,
            ),
        ensures
            final(manager).wf(final(block_device).blocks()),
            blocks_wf(final(block_device).blocks()),
            final(block_device).blocks().len() == old(block_device).blocks().len(),
            ({
                let view0 = disk_view(old(manager).entries(), old(block_device).blocks());
                let view1 = disk_view(final(manager).entries(), final(block_device).blocks());
                &&& view1.len() == view0.len()
                &&& forall|p: int|
                    0 <= p < view0.len() && p != self.start() + (bit as int / 8) / (BLOCK_SZ as int)
                        ==> view1[p] == view0[p]
                &&& forall|b2: int|
                    0 <= b2 < self.capacity() ==> bitmap_bit(view1, self.start(), b2) == (b2
                        != bit && bitmap_bit(view0, self.start(), b2))
            }),
    {
        let ghost view0 = disk_view(manager.entries(), block_device.blocks());
        proof {
            lemma_disk_view_wf(manager.entries(), block_device.blocks());
        }
        let (block_pos, byte_pos, bit_pos) = Self::decomposition(bit);
        proof {
            lemma_bit_index(bit as int);
            assert(block_pos < self.blocks) by (nonlinear_arith)
                requires
                    bit < self.capacity(),
                    self.capacity() == self.num_blocks() * (BLOCK_BITS as int),
                    self.num_blocks() == self.blocks,
                    BLOCK_BITS == BLOCK_SZ * 8,
                    block_pos == (bit as int / 8) / (BLOCK_SZ as int),
                    bit as int == block_pos * (BLOCK_BITS as int) + byte_pos * 8 + bit as int % 8,
                    0 <= byte_pos < BLOCK_SZ,
            ;
        }
        let blk = self.start_block_id + block_pos;
        let bytes = manager.read_bytes(block_device, blk, byte_pos, 1);
        let byte = bytes[0];
        assert(byte == view0[blk as int][byte_pos as int]);
        let ghost pp = bit_pos as u8;
        let new_byte = byte & !(1u8 << (bit_pos as u8));
        let mut w: Vec<u8> = Vec::new();
        w.push(new_byte);
        manager.write_bytes(block_device, blk, byte_pos, &w);
        proof {
            let view1 = disk_view(manager.entries(), block_device.blocks());
            assert(view0[blk as int].len() == BLOCK_SZ);
            assert forall|b2: int| 0 <= b2 < self.capacity() implies bitmap_bit(
                view1,
                self.start(),
                b2,
            ) == (b2 != bit && bitmap_bit(view0, self.start(), b2)) by {
                lemma_bit_index(b2);
                let q = (b2 / 8) / (BLOCK_SZ as int);
                let w2 = (b2 / 8) % (BLOCK_SZ as int);
                let k = b2 % 8;
                assert(q < self.num_blocks()) by (nonlinear_arith)
                    requires
                        0 <= q,
                        b2 == q * (BLOCK_BITS as int) + w2 * 8 + k,
                        0 <= w2 < BLOCK_SZ as int,
                        0 <= k < 8,
                        b2 < self.num_blocks() * (BLOCK_BITS as int),
                        BLOCK_BITS == BLOCK_SZ * 8,
                ;
                let b = byte;
                let kk = k as u8;
                if q == block_pos as int && w2 == byte_pos as int {
                    assert(view1[blk as int][byte_pos as int] == new_byte);
                    if k == bit_pos as int {
                        assert(b2 == bit) by (nonlinear_arith)
                            requires
                                b2 == q * (BLOCK_BITS as int) + w2 * 8 + k,
                                bit as int == block_pos * (BLOCK_BITS as int) + byte_pos * 8
                                    + bit as int % 8,
                                bit as int % 8 == bit_pos,
                                q == block_pos as int,
                                w2 == byte_pos as int,
                                k == bit_pos as int,
                        ;
                        assert(((b & !(1u8 << pp)) >> pp) & 1u8 != 1u8) by (bit_vector)
                            requires pp < 8,
                        ;
                    } else {
                        assert(b2 != bit);
                        assert(((b & !(1u8 << pp)) >> kk) & 1u8 == (b >> kk) & 1u8) by (bit_vector)
                            requires pp < 8, kk < 8, kk != pp,
                        ;
                    }
                } else {
                    assert(b2 != bit);
                    if q != block_pos as int {
                        assert(view1[self.start() + q] == view0[self.start() + q]);
                    } else {
                        assert(view1[blk as int][w2] == view0[blk as int][w2]);
                    }
                }
            }
        }
    }
}


/// Number of set bits among the first `n` bits of the bitmap at `start`.
pub open spec fn count_set(disk: Seq<Seq<u8>>, start: int, n: int) -> int
    decreases n,
{
    if n <= 0 {
        0
    } else {
        count_set(disk, start, n - 1) + (if bitmap_bit(disk, start, n - 1) {
            1int
        } else {
            0int
        })
    }
}

/// The count of set bits lies between 0 and `n`, and equals `n` only when
/// every bit is set.
pub proof fn lemma_count_set_bounds(disk: Seq<Seq<u8>>, start: int, n: int)
    ensures
        0 <= count_set(disk, start, n),
        n >= 0 ==> count_set(disk, start, n) <= n,
        n >= 0 && count_set(disk, start, n) < n ==> exists|b: int|
            0 <= b < n && !bitmap_bit(disk, start, b),
    decreases n,
{
    if n > 0 {
        lemma_count_set_bounds(disk, start, n - 1);
        if count_set(disk, start, n) < n {
            if !bitmap_bit(disk, start, n - 1) {
                assert(!bitmap_bit(disk, start, n - 1));
            } else {
                assert(count_set(disk, start, n - 1) < n - 1);
            }
        }
    }
}

/// A bitmap with no set bit counts zero.
pub proof fn lemma_count_set_none(disk: Seq<Seq<u8>>, start: int, n: int)
    requires
        forall|b: int| 0 <= b < n ==> !bitmap_bit(disk, start, b),
    ensures
        count_set(disk, start, n) == 0,
    decreases n,
{
    if n > 0 {
        lemma_count_set_none(disk, start, n - 1);
    }
}

/// Two bitmaps that agree bit for bit have the same count.
pub proof fn lemma_count_set_frame(
    d1: Seq<Seq<u8>>,
    d2: Seq<Seq<u8>>,
    start: int,
    n: int,
)
    requires
        forall|b: int| 0 <= b < n ==> bitmap_bit(d1, start, b) == bitmap_bit(d2, start, b),
    ensures
        count_set(d1, start, n) == count_set(d2, start, n),
    decreases n,
{
    if n > 0 {
        lemma_count_set_frame(d1, d2, start, n - 1);
    }
}

/// Flipping one bit moves the count by exactly one.
pub proof fn lemma_count_set_update(
    d1: Seq<Seq<u8>>,
    d2: Seq<Seq<u8>>,
    start: int,
    n: int,
    b: int,
    val: bool,
)
    requires
        0 <= b,
        forall|b2: int|
            0 <= b2 < n ==> bitmap_bit(d2, start, b2) == (if b2 == b {
                val
            } else {
                bitmap_bit(d1, start, b2)
            }),
        bitmap_bit(d1, start, b) != val,
    ensures
        b < n ==> count_set(d2, start, n) == count_set(d1, start, n) + (if val {
            1int
        } else {
            -1int
        }),
        b >= n ==> count_set(d2, start, n) == count_set(d1, start, n),
    decreases n,
{
    if n > 0 {
        lemma_count_set_update(d1, d2, start, n - 1, b, val);
    }
}


impl Bitmap {
    /// Count the clear bits among the first `limit` bits, changing nothing.
    /// A host asks this before relying on allocation to succeed.
    #[verifier::loop_isolation(false)]
    pub fn count_free<D: BlockDevice>(
        &self,
        manager: &mut BlockCacheManager,
        block_device: &mut D,
        limit: usize,
    ) -> (r: usize)
        requires
            old(manager).wf(old(block_device).blocks()),
            blocks_wf(old(block_device).blocks()),
            self.in_range(old(block_device).blocks().len() as int),
            limit <= self.capacity(),
        ensures
            final(manager).wf(final(block_device).blocks()),
            blocks_wf(final(block_device).blocks()),
            final(block_device).blocks().len() == old(block_device).blocks().len(),
            disk_view(final(manager).entries(), final(block_device).blocks()) == disk_view(
                old(manager).entries(),
                old(block_device).blocks(),
            ),
            r == limit - count_set(
                disk_view(old(manager).entries(), old(block_device).blocks()),
                self.start(),
                limit as int,
            ),
    {
        let ghost view0 = disk_view(manager.entries(), block_device.blocks());
        proof {
            lemma_disk_view_wf(manager.entries(), block_device.blocks());
            lemma_count_set_bounds(view0, self.start(), limit as int);
        }
        let mut free: usize = 0;
        let mut b: usize = 0;
        while b < limit
            invariant
                b <= limit,
                manager.wf(block_device.blocks()),
                blocks_wf(block_device.blocks()),
                block_device.blocks().len() == old(block_device).blocks().len(),
                disk_view(manager.entries(), block_device.blocks()) == view0,
                free as int == b - count_set(view0, self.start(), b as int),
                free <= b,
            decreases limit - b,
        {
            let (block_pos, byte_pos, bit_pos) = Self::decomposition(b);
            proof {
                lemma_bit_index(b as int);
                assert(block_pos < self.blocks) by (nonlinear_arith)
                    requires
                        b < self.capacity(),
                        self.capacity() == self.num_blocks() * (BLOCK_BITS as int),
                        self.num_blocks() == self.blocks,
                        BLOCK_BITS == BLOCK_SZ * 8,
                        block_pos == (b as int / 8) / (BLOCK_SZ as int),
                        b as int == block_pos * (BLOCK_BITS as int) + byte_pos * 8 + b as int
                            % 8,
                        0 <= byte_pos < BLOCK_SZ,
                ;
                lemma_count_set_bounds(view0, self.start(), b as int);
            }
            let bytes = manager.read_bytes(
                block_device,
                self.start_block_id + block_pos,
                byte_pos,
                1,
            );
            let byte = bytes[0];
            proof {
                assert(byte == view0[self.start() + (b as int / 8) / (BLOCK_SZ as int)][(b as int
                    / 8) % (BLOCK_SZ as int)]);
            }
            proof {
                assert(((byte >> (bit_pos as u8)) & 1u8 == 1u8) == bitmap_bit(
                    view0,
                    self.start(),
                    b as int,
                ));
                assert(count_set(view0, self.start(), b as int + 1) == count_set(
                    view0,
                    self.start(),
                    b as int,
                ) + (if bitmap_bit(view0, self.start(), b as int) {
                    1int
                } else {
                    0int
                }));
            }
            if (byte >> (bit_pos as u8)) & 1u8 == 0u8 {
                proof {
                    assert(!bitmap_bit(view0, self.start(), b as int));
                }
                free += 1;
            } else {
                proof {
                    let bb = byte;
                    let pp = bit_pos as u8;
                    assert((bb >> pp) & 1u8 == 1u8) by (bit_vector)
                        requires (bb >> pp) & 1u8 != 0u8,
                    ;
                    assert(bitmap_bit(view0, self.start(), b as int));
                }
            }
            b += 1;
        }
        free
    }
}

} // verus!
