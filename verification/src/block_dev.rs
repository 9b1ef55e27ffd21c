//! The block device port: the one interface the file system needs from its
//! host, plus an in-memory device that backs images held entirely in RAM.
use vstd::prelude::*;
use crate::BLOCK_SZ;

verus! {

/// Every block of `blocks` holds exactly [`BLOCK_SZ`] bytes.
pub open spec fn blocks_wf(blocks: Seq<Seq<u8>>) -> bool {
    forall|i: int| 0 <= i < blocks.len() ==> (#[trigger] blocks[i]).len() == BLOCK_SZ
}

/// A randomly addressable store of fixed 512-byte blocks.
///
/// The file system is written against this port alone.  A host embeds the
/// file system by implementing it, for example over a raw partition or a
/// host file; [`MemBlockDevice`] is a verified in-memory implementation.
/// Both operations are infallible: a failing device must not return.
pub trait BlockDevice: Sized {
    /// The current contents of the device, one byte sequence per block.
    /// A host implementation outside the verified world may leave this
    /// default in place; a verified implementation overrides it.
    open spec fn blocks(&self) -> Seq<Seq<u8>> {
        Seq::empty()
    }

    /// Fill `buf` with the contents of block `block_id`.
    fn read_block(&self, block_id: usize, buf: &mut Vec<u8>)
        requires
            blocks_wf(self.blocks()),
            block_id < self.blocks().len(),
            old(buf).len() == BLOCK_SZ,
        ensures
            final(buf)@ == self.blocks()[block_id as int],
    ;

    /// Persist `buf` as the new contents of block `block_id`.
    fn write_block(&mut self, block_id: usize, buf: &Vec<u8>)
        requires
            blocks_wf(old(self).blocks()),
            block_id < old(self).blocks().len(),
            buf.len() == BLOCK_SZ,
        ensures
            final(self).blocks() == old(self).blocks().update(block_id as int, buf@),
            blocks_wf(final(self).blocks()),
    ;
}

/// A block device held entirely in memory, suitable for tests and for
/// building images that a host later writes out whole.
pub struct MemBlockDevice {
    data: Vec<Vec<u8>>,
}

impl MemBlockDevice {
    /// A device of `total_blocks` blocks, all zeroed.
    pub fn new(total_blocks: usize) -> (dev: MemBlockDevice)
        ensures
            blocks_wf(dev.blocks()),
            dev.blocks().len() == total_blocks,
            forall|i: int, j: int|
                0 <= i < total_blocks && 0 <= j < BLOCK_SZ ==> dev.blocks()[i][j] == 0u8,
    {
        let mut data: Vec<Vec<u8>> = Vec::new();
        let mut i: usize = 0;
        while i < total_blocks
            invariant
                i <= total_blocks,
                data@.len() == i,
                forall|k: int|
                    0 <= k < i ==> (#[trigger] data@[k])@ =~= Seq::new(
                        BLOCK_SZ as nat,
                        |j: int| 0u8,
                    ),
            decreases total_blocks - i,
        {
            let block: Vec<u8> = vec![0u8; BLOCK_SZ];
            assert(block@ =~= Seq::new(BLOCK_SZ as nat, |j: int| 0u8));
            data.push(block);
            i += 1;
        }
        let dev = MemBlockDevice { data };
        assert forall|i: int, j: int|
            0 <= i < total_blocks && 0 <= j < BLOCK_SZ implies dev.blocks()[i][j] == 0u8 by {
            assert(dev.blocks()[i] == data@[i]@);
        }
        dev
    }
}

impl BlockDevice for MemBlockDevice {
    closed spec fn blocks(&self) -> Seq<Seq<u8>> {
        Seq::new(self.data@.len(), |i: int| self.data@[i]@)
    }

    fn read_block(&self, block_id: usize, buf: &mut Vec<u8>) {
        let src: &Vec<u8> = &self.data[block_id];
        assert(self.blocks()[block_id as int].len() == BLOCK_SZ);
        assert(self.blocks()[block_id as int] == self.data@[block_id as int]@);
        assert(src@ == self.data@[block_id as int]@);
        let mut j: usize = 0;
        while j < BLOCK_SZ
            invariant
                j <= BLOCK_SZ,
                src@.len() == BLOCK_SZ,
                buf@.len() == BLOCK_SZ,
                src == self.data@[block_id as int],
                forall|k: int| 0 <= k < j ==> buf@[k] == src@[k],
            decreases BLOCK_SZ - j,
        {
            let b = src[j];
            buf.set(j, b);
            j += 1;
        }
        assert(buf@ =~= self.blocks()[block_id as int]);
    }

    fn write_block(&mut self, block_id: usize, buf: &Vec<u8>) {
        let mut copy: Vec<u8> = Vec::new();
        let mut j: usize = 0;
        while j < buf.len()
            invariant
                j <= buf@.len(),
                copy@.len() == j,
                forall|k: int| 0 <= k < j ==> copy@[k] == buf@[k],
            decreases buf@.len() - j,
        {
            let b = buf[j];
            copy.push(b);
            j += 1;
        }
        assert(copy@ =~= buf@);
        self.data.set(block_id, copy);
        assert(self.blocks() =~= old(self).blocks().update(block_id as int, buf@));
    }
}

} // verus!
