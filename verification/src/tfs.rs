//! The file system layout manager: image format, create/open, bitmap
//! placement, inode position mapping, and block allocation.
use vstd::prelude::*;
use crate::BLOCK_SZ;
use crate::block_dev::{BlockDevice, blocks_wf};
use crate::block_cache::{BlockCacheManager, disk_view, splice};
use crate::bitmap::{Bitmap, BLOCK_BITS, bitmap_bit, count_set, lemma_bit_index,
    lemma_count_set_none};
use crate::layout::{
    SuperBlock, super_block_of_bytes, DiskInode, DiskInodeType, DiskInodeView, inode_of_bytes,
    DISK_INODE_SZ, TFS_MAGIC,
};
use crate::vfs::Inode;

verus! {

/// How many serialized inodes fit in one block.
pub const INODES_PER_BLOCK: usize = 4;

/// The byte store of a mounted file system: its device contents overridden
/// by its cache.
pub open spec fn fs_view<D: BlockDevice>(fs: &TinyFileSystem<D>) -> Seq<Seq<u8>> {
    disk_view(fs.manager.entries(), fs.block_device.blocks())
}

/// One all-zero block.
pub open spec fn zero_block() -> Seq<u8> {
    Seq::new(BLOCK_SZ as nat, |i: int| 0u8)
}

/// The inode record stored at byte `offset` of block `block_id`.
pub open spec fn inode_at(disk: Seq<Seq<u8>>, block_id: int, offset: int) -> DiskInodeView {
    inode_of_bytes(disk[block_id].subrange(offset, offset + DISK_INODE_SZ))
}

/// A tiny file system mounted on a block device: the device, its block
/// cache, the two bitmaps, and where the inode and data areas begin.
pub struct TinyFileSystem<D: BlockDevice> {
    /// The backing device.
    pub block_device: D,
    /// The cache pool every access goes through.
    pub manager: BlockCacheManager,
    /// Allocation bits for inodes.
    pub inode_bitmap: Bitmap,
    /// Allocation bits for data blocks.
    pub data_bitmap: Bitmap,
    /// First block of the inode area.
    pub inode_area_start_block: u32,
    /// First block of the data area.
    pub data_area_start_block: u32,
}

impl<D: BlockDevice> TinyFileSystem<D> {
    /// How many data blocks the image can actually hold: the data bitmap's
    /// bit count, clamped to the blocks that exist past the data area
    /// start.
    pub open spec fn data_limit(&self) -> int {
        let cap = self.data_bitmap.capacity();
        let avail = self.block_device.blocks().len() - self.data_area_start_block;
        if cap <= avail {
            cap
        } else {
            avail
        }
    }

    /// The mount invariant: a coherent cache, whole blocks, and the two
    /// bitmaps and two areas laid out in order within the device.
    pub open spec fn wf(&self) -> bool {
        let len = self.block_device.blocks().len() as int;
        &&& self.manager.wf(self.block_device.blocks())
        &&& blocks_wf(self.block_device.blocks())
        &&& len <= u32::MAX
        &&& self.inode_bitmap.start() == 1
        &&& self.inode_bitmap.num_blocks() >= 1
        &&& self.inode_bitmap.capacity() <= u32::MAX
        &&& self.inode_bitmap.in_range(len)
        &&& self.data_bitmap.in_range(len)
        &&& self.data_bitmap.num_blocks() >= 1
        &&& self.inode_area_start_block == 1 + self.inode_bitmap.num_blocks()
        &&& self.inode_area_start_block + self.inode_bitmap.capacity() / (
        INODES_PER_BLOCK as int) <= self.data_bitmap.start()
        &&& self.data_area_start_block == self.data_bitmap.start()
            + self.data_bitmap.num_blocks()
        &&& self.data_area_start_block <= len
        &&& self.data_area_start_block + self.data_bitmap.capacity() <= u32::MAX
    }

    /// The layout descriptors of the mount: everything but the device and
    /// cache contents.
    pub open spec fn same_layout(&self, other: &TinyFileSystem<D>) -> bool {
        &&& self.inode_bitmap == other.inode_bitmap
        &&& self.data_bitmap == other.data_bitmap
        &&& self.inode_area_start_block == other.inode_area_start_block
        &&& self.data_area_start_block == other.data_area_start_block
        &&& self.block_device.blocks().len() == other.block_device.blocks().len()
    }

    /// Build a fresh file system on `block_device`: compute the layout,
    /// zero the image, write the super block, and allocate inode 0 as an
    /// empty root directory.
    #[verifier::loop_isolation(false)]
    #[verifier::rlimit(30)]
    pub fn create(block_device: D, total_blocks: u32, inode_bitmap_blocks: u32) -> (r:
        TinyFileSystem<D>)
        requires
            blocks_wf(block_device.blocks()),
            block_device.blocks().len() == total_blocks,
            1 <= inode_bitmap_blocks,
            inode_bitmap_blocks as int * (BLOCK_BITS as int) <= u32::MAX,
            inode_bitmap_blocks as int * (BLOCK_BITS as int) * (DISK_INODE_SZ as int) + BLOCK_SZ
                <= usize::MAX,
            total_blocks as int > 2 + inode_bitmap_blocks + 1024 * inode_bitmap_blocks,
            total_blocks as int + 4096 <= u32::MAX,
        ensures
            r.wf(),
            r.block_device.blocks().len() == total_blocks,
            r.inode_bitmap.num_blocks() == inode_bitmap_blocks,
            r.inode_area_start_block == 1 + inode_bitmap_blocks,
            r.data_bitmap.start() == 1 + inode_bitmap_blocks + 1024 * inode_bitmap_blocks,
            r.data_bitmap.num_blocks() == (total_blocks - 1 - inode_bitmap_blocks - 1024
                * inode_bitmap_blocks + 4096) / 4097,
            r.data_area_start_block == r.data_bitmap.start() + r.data_bitmap.num_blocks(),
            r.manager.all_clean(),
            r.block_device.blocks() == fs_view(&r),
            ({
                let view = fs_view(&r);
                let sb = super_block_of_bytes(view[0]);
                let data_total = total_blocks - 1 - inode_bitmap_blocks - 1024
                    * inode_bitmap_blocks;
                &&& sb.magic == TFS_MAGIC
                &&& sb.total_blocks == total_blocks
                &&& sb.inode_bitmap_blocks == inode_bitmap_blocks
                &&& sb.inode_area_blocks == 1024 * inode_bitmap_blocks
                &&& sb.data_bitmap_blocks == (data_total + 4096) / 4097
                &&& sb.data_area_blocks == data_total - (data_total + 4096) / 4097
                &&& 1 + sb.inode_bitmap_blocks + sb.inode_area_blocks + sb.data_bitmap_blocks
                    + sb.data_area_blocks == sb.total_blocks
                &&& count_set(view, r.data_bitmap.start(), r.data_limit()) == 0
                &&& forall|p: int|
                    0 <= p < total_blocks && p != 0 && !(1 <= p < 1 + inode_bitmap_blocks) && p
                        != r.inode_area_start_block ==> view[p] == zero_block()
                &&& forall|j: int| 24 <= j < BLOCK_SZ ==> view[0][j] == 0u8
                &&& forall|j: int|
                    DISK_INODE_SZ <= j < BLOCK_SZ ==> view[r.inode_area_start_block as int][j]
                        == 0u8
                &&& bitmap_bit(view, 1, 0)
                &&& forall|b: int| 1 <= b < r.inode_bitmap.capacity() ==> !bitmap_bit(view, 1, b)
                &&& forall|b: int|
                    0 <= b < r.data_bitmap.capacity() ==> !bitmap_bit(
                        view,
                        r.data_bitmap.start(),
                        b,
                    )
                &&& inode_at(view, r.inode_area_start_block as int, 0) == (DiskInodeView {
                    size: 0u32,
                    direct: Seq::new(28nat, |i: int| 0u32),
                    indirect1: 0u32,
                    indirect2: 0u32,
                    type_: DiskInodeType::Directory,
                })
            }),
    {
        let inode_bitmap = Bitmap::new(1, inode_bitmap_blocks as usize);
        let inode_num = inode_bitmap.maxium();
        let inode_area_blocks = ((inode_num * DISK_INODE_SZ + BLOCK_SZ - 1) / BLOCK_SZ) as u32;
        proof {
            assert(inode_area_blocks as int == 1024 * inode_bitmap_blocks) by (nonlinear_arith)
                requires
                    inode_area_blocks as int == (inode_bitmap_blocks * (BLOCK_BITS as int)
                        * (DISK_INODE_SZ as int) + BLOCK_SZ - 1) / (BLOCK_SZ as int),
                    1 <= inode_bitmap_blocks,
                    inode_bitmap_blocks as int * (BLOCK_BITS as int) <= u32::MAX,
                    BLOCK_BITS == 4096,
                    DISK_INODE_SZ == 128,
                    BLOCK_SZ == 512,
            ;
        }
        let data_total_blocks = total_blocks - 1 - inode_bitmap_blocks - inode_area_blocks;
        let data_bitmap_blocks = (data_total_blocks + 4096) / 4097;
        proof {
            assert(1 <= data_bitmap_blocks <= data_total_blocks && data_bitmap_blocks as int
                * (BLOCK_BITS as int) <= data_total_blocks + BLOCK_BITS) by (nonlinear_arith)
                requires
                    data_bitmap_blocks as int == (data_total_blocks + 4096) / 4097,
                    data_total_blocks >= 2,
                    BLOCK_BITS == 4096,
            ;
        }
        let data_area_blocks = data_total_blocks - data_bitmap_blocks;
        let data_bitmap = Bitmap::new(
            (1 + inode_bitmap_blocks + inode_area_blocks) as usize,
            data_bitmap_blocks as usize,
        );
        let inode_area_start_block = 1 + inode_bitmap_blocks;
        let data_area_start_block = 1 + inode_bitmap_blocks + inode_area_blocks
            + data_bitmap_blocks;
        let mut fs = TinyFileSystem {
            block_device,
            manager: BlockCacheManager::new(),
            inode_bitmap,
            data_bitmap,
            inode_area_start_block,
            data_area_start_block,
        };
        // zero every block of the image
        let zero: Vec<u8> = vec![0u8; BLOCK_SZ];
        assert(zero@ =~= zero_block());
        let mut i: u32 = 0;
        while i < total_blocks
            invariant
                i <= total_blocks,
                zero@ == zero_block(),
                fs.block_device.blocks().len() == total_blocks,
                fs.manager.wf(fs.block_device.blocks()),
                blocks_wf(fs.block_device.blocks()),
                fs.inode_bitmap == inode_bitmap,
                fs.data_bitmap == data_bitmap,
                fs.inode_area_start_block == inode_area_start_block,
                fs.data_area_start_block == data_area_start_block,
                forall|p: int| 0 <= p < i ==> #[trigger] fs_view(&fs)[p] == zero_block(),
            decreases total_blocks - i,
        {
            let ghost vprev = fs_view(&fs);
            fs.manager.write_bytes(&mut fs.block_device, i as usize, 0, &zero);
            proof {
                assert(fs_view(&fs)[i as int] =~= zero_block());
                assert forall|p: int| 0 <= p < i implies #[trigger] fs_view(&fs)[p]
                    == zero_block() by {
                    assert(fs_view(&fs)[p] == vprev[p]);
                }
            }
            i += 1;
        }
        let ghost view_zeroed = fs_view(&fs);
        proof {
            // every allocation bit of a zeroed image is clear
            assert forall|b: int| 0 <= b < fs.inode_bitmap.capacity() implies !bitmap_bit(
                view_zeroed,
                1,
                b,
            ) by {
                lemma_bit_index(b);
                lemma_bit_block_bound(b, fs.inode_bitmap.num_blocks());
                let kk = (b % 8) as u8;
                assert((0u8 >> kk) & 1u8 == 0u8) by (bit_vector);
            }
            assert forall|b: int| 0 <= b < fs.data_bitmap.capacity() implies !bitmap_bit(
                view_zeroed,
                fs.data_bitmap.start(),
                b,
            ) by {
                lemma_bit_index(b);
                lemma_bit_block_bound(b, fs.data_bitmap.num_blocks());
                let kk = (b % 8) as u8;
                assert((0u8 >> kk) & 1u8 == 0u8) by (bit_vector);
            }
        }
        // write the super block
        let mut sb = SuperBlock {
            magic: 0,
            total_blocks: 0,
            inode_bitmap_blocks: 0,
            inode_area_blocks: 0,
            data_bitmap_blocks: 0,
            data_area_blocks: 0,
        };
        sb.initialize(
            total_blocks,
            inode_bitmap_blocks,
            inode_area_blocks,
            data_bitmap_blocks,
            data_area_blocks,
        );
        let enc = sb.encode();
        fs.manager.write_bytes(&mut fs.block_device, 0, 0, &enc);
        let ghost view_sb = fs_view(&fs);
        proof {
            assert forall|k: int| 0 <= k < 6 implies #[trigger] view_sb[0].subrange(
                4 * k,
                4 * k + 4,
            ) == enc@.subrange(4 * k, 4 * k + 4) by {
                assert(view_sb[0].subrange(4 * k, 4 * k + 4) =~= enc@.subrange(4 * k, 4 * k + 4));
            }
            assert(super_block_of_bytes(view_sb[0]) == sb);
            // bits are untouched: only block 0 changed
            assert forall|b: int| 0 <= b < fs.inode_bitmap.capacity() implies !bitmap_bit(
                view_sb,
                1,
                b,
            ) by {
                lemma_bit_index(b);
                lemma_bit_block_bound(b, fs.inode_bitmap.num_blocks());
                assert(!bitmap_bit(view_zeroed, 1, b));
                assert(view_sb[1 + (b / 8) / (BLOCK_SZ as int)] == view_zeroed[1 + (b / 8) / (
                BLOCK_SZ as int)]);
            }
            assert forall|b: int| 0 <= b < fs.data_bitmap.capacity() implies !bitmap_bit(
                view_sb,
                fs.data_bitmap.start(),
                b,
            ) by {
                lemma_bit_index(b);
                lemma_bit_block_bound(b, fs.data_bitmap.num_blocks());
                assert(!bitmap_bit(view_zeroed, fs.data_bitmap.start(), b));
                assert(view_sb[fs.data_bitmap.start() + (b / 8) / (BLOCK_SZ as int)]
                    == view_zeroed[fs.data_bitmap.start() + (b / 8) / (BLOCK_SZ as int)]);
            }
        }
        // allocate the root inode: the image is empty, so it gets bit 0
        let root = fs.inode_bitmap.allocate(&mut fs.manager, &mut fs.block_device);
        let ghost view_alloc = fs_view(&fs);
        let root_bit = match root {
            Some(b) => b,
            None => {
                proof {
                    assert(bitmap_bit(view_sb, 1, 0));
                    assert(false);
                }
                0
            },
        };
        proof {
            if root_bit != 0 {
                assert(bitmap_bit(view_sb, 1, 0));
                assert(false);
            }
        }
        // write the root directory's inode record
        let root_inode = DiskInode::initialize(DiskInodeType::Directory);
        let enc_root = root_inode.encode();
        fs.manager.write_bytes(
            &mut fs.block_device,
            inode_area_start_block as usize,
            0,
            &enc_root,
        );
        let ghost view_root = fs_view(&fs);
        proof {
            assert(view_root[inode_area_start_block as int].subrange(0, DISK_INODE_SZ as int)
                =~= enc_root@);
            assert(inode_at(view_root, inode_area_start_block as int, 0) == root_inode@);
            assert(root_inode@.direct =~= Seq::new(28nat, |i: int| 0u32));
        }
        fs.manager.block_cache_sync_all(&mut fs.block_device);
        proof {
            let view = fs_view(&fs);
            assert(view == view_root);
            // the super block, written before the root allocation, is intact
            assert(view[0] == view_sb[0]);
            assert(super_block_of_bytes(view[0]) == sb);
            // inode bitmap: bit 0 set by the root allocation, all else clear
            assert forall|b: int| 1 <= b < fs.inode_bitmap.capacity() implies !bitmap_bit(
                view,
                1,
                b,
            ) by {
                lemma_bit_index(b);
                lemma_bit_block_bound(b, fs.inode_bitmap.num_blocks());
                assert(bitmap_bit(view_alloc, 1, b) == (b == 0 || bitmap_bit(view_sb, 1, b)));
                assert(view[1 + (b / 8) / (BLOCK_SZ as int)] == view_alloc[1 + (b / 8) / (
                BLOCK_SZ as int)]);
            }
            assert(bitmap_bit(view, 1, 0)) by {
                lemma_bit_index(0);
                assert(bitmap_bit(view_alloc, 1, 0));
                assert(view[1] == view_alloc[1]);
            }
            // data bitmap: untouched since the image was zeroed
            assert forall|b: int| 0 <= b < fs.data_bitmap.capacity() implies !bitmap_bit(
                view,
                fs.data_bitmap.start(),
                b,
            ) by {
                lemma_bit_index(b);
                lemma_bit_block_bound(b, fs.data_bitmap.num_blocks());
                let p = fs.data_bitmap.start() + (b / 8) / (BLOCK_SZ as int);
                assert(view[p] == view_alloc[p]);
                assert(view_alloc[p] == view_sb[p]);
                assert(!bitmap_bit(view_sb, fs.data_bitmap.start(), b));
            }
            assert(view[inode_area_start_block as int] == view_root[
                inode_area_start_block as int]);
            // the data bitmap starts with nothing allocated
            lemma_count_set_none(view, fs.data_bitmap.start(), fs.data_limit());
            // every block not written to is still all zeroes
            assert forall|p: int|
                0 <= p < total_blocks && p != 0 && !(1 <= p < 1 + inode_bitmap_blocks) && p
                    != inode_area_start_block implies view[p] == zero_block() by {
                assert(view[p] == view_alloc[p]);
                assert(view_alloc[p] == view_sb[p]) by {
                    crate::bitmap::lemma_bit_index(0);
                }
                assert(view_sb[p] == view_zeroed[p]);
                assert(view_zeroed[p] == zero_block());
            }
            // block 0 holds the super block and zeroes after it
            assert forall|j: int| 24 <= j < BLOCK_SZ implies view[0][j] == 0u8 by {
                assert(view_sb[0] == splice(view_zeroed[0], 0, enc@));
                assert(view_zeroed[0] == zero_block());
            }
            // the root's block holds its record and zeroes after it
            assert forall|j: int|
                DISK_INODE_SZ <= j < BLOCK_SZ implies view[inode_area_start_block as int][j]
                    == 0u8 by {
                assert(view_root[inode_area_start_block as int] == splice(
                    view_alloc[inode_area_start_block as int],
                    0,
                    enc_root@,
                ));
                assert(view_alloc[inode_area_start_block as int] == view_sb[
                    inode_area_start_block as int]) by {
                    crate::bitmap::lemma_bit_index(0);
                }
                assert(view_sb[inode_area_start_block as int] == view_zeroed[
                    inode_area_start_block as int]);
                assert(view_zeroed[inode_area_start_block as int] == zero_block());
            }
        }
        fs
    }

    /// Mount the file system already present on `block_device`, laying the
    /// bitmaps out as its super block describes.  The super block must be
    /// valid and consistent; a host rejects anything else before mounting.
    pub fn open(block_device: D) -> (r: TinyFileSystem<D>)
        requires
            blocks_wf(block_device.blocks()),
            1 <= block_device.blocks().len() <= u32::MAX,
            ({
                let sb = super_block_of_bytes(block_device.blocks()[0]);
                &&& sb.magic == TFS_MAGIC
                &&& sb.total_blocks == block_device.blocks().len()
                &&& 1 + sb.inode_bitmap_blocks + sb.inode_area_blocks + sb.data_bitmap_blocks
                    + sb.data_area_blocks == sb.total_blocks
                &&& sb.inode_bitmap_blocks >= 1
                &&& sb.data_bitmap_blocks >= 1
                &&& sb.inode_area_blocks >= 1024 * sb.inode_bitmap_blocks
                &&& sb.inode_bitmap_blocks as int * (BLOCK_BITS as int) <= u32::MAX
                &&& sb.data_bitmap_blocks as int * (BLOCK_BITS as int) <= usize::MAX
                &&& 1 + sb.inode_bitmap_blocks + sb.inode_area_blocks + sb.data_bitmap_blocks
                    + sb.data_bitmap_blocks as int * (BLOCK_BITS as int) <= u32::MAX
            }),
        ensures
            r.wf(),
            fs_view(&r) == block_device.blocks(),
            ({
                let sb = super_block_of_bytes(block_device.blocks()[0]);
                &&& super_block_of_bytes(fs_view(&r)[0]).magic == TFS_MAGIC
                &&& r.inode_bitmap.num_blocks() == sb.inode_bitmap_blocks
                &&& r.data_bitmap.start() == 1 + sb.inode_bitmap_blocks + sb.inode_area_blocks
                &&& r.data_bitmap.num_blocks() == sb.data_bitmap_blocks
                &&& r.inode_area_start_block == 1 + sb.inode_bitmap_blocks
                &&& r.data_area_start_block == 1 + sb.inode_bitmap_blocks + sb.inode_area_blocks
                    + sb.data_bitmap_blocks
            }),
    {
        let mut block_device = block_device;
        let ghost dev0 = block_device.blocks();
        let mut manager = BlockCacheManager::new();
        let sb_bytes = manager.read_bytes(&mut block_device, 0, 0, 24);
        proof {
            assert forall|k: int| 0 <= k < 6 implies #[trigger] sb_bytes@.subrange(
                4 * k,
                4 * k + 4,
            ) == dev0[0].subrange(4 * k, 4 * k + 4) by {
                assert(sb_bytes@.subrange(4 * k, 4 * k + 4) =~= dev0[0].subrange(
                    4 * k,
                    4 * k + 4,
                ));
            }
        }
        let sb = SuperBlock::decode(&sb_bytes);
        let inode_bitmap = Bitmap::new(1, sb.inode_bitmap_blocks as usize);
        let data_bitmap = Bitmap::new(
            (1 + sb.inode_bitmap_blocks + sb.inode_area_blocks) as usize,
            sb.data_bitmap_blocks as usize,
        );
        let inode_area_start_block = 1 + sb.inode_bitmap_blocks;
        let data_area_start_block = 1 + sb.inode_bitmap_blocks + sb.inode_area_blocks
            + sb.data_bitmap_blocks;
        let r = TinyFileSystem {
            block_device,
            manager,
            inode_bitmap,
            data_bitmap,
            inode_area_start_block,
            data_area_start_block,
        };
        proof {
            let sbg = super_block_of_bytes(dev0[0]);
            assert(sb.inode_bitmap_blocks == sbg.inode_bitmap_blocks);
            assert(sb.inode_area_blocks == sbg.inode_area_blocks);
            assert(sb.data_bitmap_blocks == sbg.data_bitmap_blocks);
            assert(sb.data_area_blocks == sbg.data_area_blocks);
            assert(sb.total_blocks == sbg.total_blocks);
            assert(sb.magic == sbg.magic);
            assert(r.inode_bitmap.capacity() / (INODES_PER_BLOCK as int) == 1024
                * sbg.inode_bitmap_blocks) by (nonlinear_arith)
                requires
                    r.inode_bitmap.capacity() == sbg.inode_bitmap_blocks as int * (
                    BLOCK_BITS as int),
                    BLOCK_BITS == 4096,
                    INODES_PER_BLOCK == 4,
            ;
            assert(r.wf());
        }
        r
    }

    /// The root directory: inode 0.
    pub fn root_inode(&self) -> (r: Inode)
        requires
            self.wf(),
            self.inode_bitmap.capacity() >= 1,
        ensures
            r.block_id == self.inode_area_start_block,
            r.offset == 0,
    {
        let (block_id, offset) = self.get_disk_inode_pos(0);
        Inode::new(block_id, offset)
    }

    /// Allocate an inode bit, or `None` when every inode is taken.
    pub fn alloc_inode(&mut self) -> (r: Option<u32>)
        requires
            old(self).wf(),
        ensures
            final(self).wf(),
            final(self).same_layout(old(self)),
            ({
                let view0 = fs_view(old(self));
                let view1 = fs_view(final(self));
                match r {
                    None => view1 == view0 && crate::bitmap::all_bits_set(
                        view0,
                        1,
                        old(self).inode_bitmap.capacity(),
                    ),
                    Some(b) => {
                        &&& b < old(self).inode_bitmap.capacity()
                        &&& !bitmap_bit(view0, 1, b as int)
                        &&& crate::bitmap::all_bits_set(view0, 1, b as int)
                        &&& view1.len() == view0.len()
                        &&& forall|p: int|
                            0 <= p < view0.len() && p != 1 + (b as int / 8) / (BLOCK_SZ as int)
                                ==> view1[p] == view0[p]
                        &&& forall|b2: int|
                            0 <= b2 < old(self).inode_bitmap.capacity() ==> bitmap_bit(
                                view1,
                                1,
                                b2,
                            ) == (b2 == b || bitmap_bit(view0, 1, b2))
                    },
                }
            }),
    {
        match self.inode_bitmap.allocate(&mut self.manager, &mut self.block_device) {
            Some(b) => Some(b as u32),
            None => None,
        }
    }

    /// Allocate a data block and return its global block id.  The data
    /// area must not be full.
    pub fn alloc_data(&mut self) -> (r: u32)
        requires
            old(self).wf(),
            exists|b: int|
                0 <= b < old(self).data_limit() && !bitmap_bit(
                    fs_view(old(self)),
                    old(self).data_bitmap.start(),
                    b,
                ),
        ensures
            final(self).wf(),
            final(self).same_layout(old(self)),
            ({
                let view0 = fs_view(old(self));
                let view1 = fs_view(final(self));
                let b = r - old(self).data_area_start_block;
                &&& old(self).data_area_start_block <= r
                &&& 0 <= b < old(self).data_limit()
                &&& r < old(self).block_device.blocks().len()
                &&& !bitmap_bit(view0, old(self).data_bitmap.start(), b as int)
                &&& crate::bitmap::all_bits_set(view0, old(self).data_bitmap.start(), b as int)
                &&& view1.len() == view0.len()
                &&& forall|p: int|
                    0 <= p < view0.len() && p != old(self).data_bitmap.start() + (b as int / 8)
                        / (BLOCK_SZ as int) ==> view1[p] == view0[p]
                &&& forall|b2: int|
                    0 <= b2 < old(self).data_bitmap.capacity() ==> bitmap_bit(
                        view1,
                        old(self).data_bitmap.start(),
                        b2,
                    ) == (b2 == b || bitmap_bit(view0, old(self).data_bitmap.start(), b2))
            }),
    {
        let ghost view0 = fs_view(self);
        match self.data_bitmap.allocate(&mut self.manager, &mut self.block_device) {
            Some(bit) => {
                proof {
                    let witness = choose|b: int|
                        0 <= b < old(self).data_limit() && !bitmap_bit(
                            view0,
                            old(self).data_bitmap.start(),
                            b,
                        );
                    if bit > witness {
                        assert(bitmap_bit(view0, self.data_bitmap.start(), witness));
                        assert(false);
                    }
                }
                bit as u32 + self.data_area_start_block
            },
            None => {
                proof {
                    let witness = choose|b: int|
                        0 <= b < old(self).data_limit() && !bitmap_bit(
                            view0,
                            old(self).data_bitmap.start(),
                            b,
                        );
                    assert(bitmap_bit(view0, self.data_bitmap.start(), witness));
                    assert(false);
                }
                0
            },
        }
    }

    /// Free a data block: zero its contents through the cache, then clear
    /// its bit, which must currently be set.
    pub fn dealloc_data(&mut self, block_id: u32) -> (r: ())
        requires
            old(self).wf(),
            old(self).data_area_start_block <= block_id,
            block_id - old(self).data_area_start_block < old(self).data_limit(),
            bitmap_bit(
                fs_view(old(self)),
                old(self).data_bitmap.start(),
                block_id - old(self).data_area_start_block,
            ),
        ensures
            final(self).wf(),
            final(self).same_layout(old(self)),
            ({
                let view0 = fs_view(old(self));
                let view1 = fs_view(final(self));
                let b = block_id - old(self).data_area_start_block;
                &&& view1.len() == view0.len()
                &&& forall|p: int|
                    0 <= p < view0.len() && p != block_id && p != old(self).data_bitmap.start()
                        + (b as int / 8) / (BLOCK_SZ as int) ==> view1[p] == view0[p]
                &&& view1[block_id as int] =~= Seq::new(BLOCK_SZ as nat, |i: int| 0u8)
                &&& forall|b2: int|
                    0 <= b2 < old(self).data_bitmap.capacity() ==> bitmap_bit(
                        view1,
                        old(self).data_bitmap.start(),
                        b2,
                    ) == (b2 != b && bitmap_bit(view0, old(self).data_bitmap.start(), b2))
            }),
    {
        let zero: Vec<u8> = vec![0u8; BLOCK_SZ];
        let bit = (block_id - self.data_area_start_block) as usize;
        let ghost view0 = fs_view(self);
        self.manager.write_bytes(&mut self.block_device, block_id as usize, 0, &zero);
        let ghost viewz = fs_view(self);
        proof {
            lemma_bit_index(bit as int);
            lemma_bit_block_bound(bit as int, self.data_bitmap.num_blocks());
            // zeroing a data-area block does not touch the bitmap
            assert forall|b2: int| 0 <= b2 < self.data_bitmap.capacity() implies bitmap_bit(
                viewz,
                self.data_bitmap.start(),
                b2,
            ) == bitmap_bit(view0, self.data_bitmap.start(), b2) by {
                lemma_bit_index(b2);
                lemma_bit_block_bound(b2, self.data_bitmap.num_blocks());
                assert(self.data_bitmap.start() + (b2 / 8) / (BLOCK_SZ as int)
                    < self.data_area_start_block);
                assert(viewz[self.data_bitmap.start() + (b2 / 8) / (BLOCK_SZ as int)] == view0[
                    self.data_bitmap.start() + (b2 / 8) / (BLOCK_SZ as int)]);
            }
        }
        self.data_bitmap.dealloc(&mut self.manager, &mut self.block_device, bit);
        proof {
            let view1 = fs_view(self);
            assert(view1[block_id as int] == viewz[block_id as int]) by {
                assert(block_id as int != self.data_bitmap.start() + (bit as int / 8) / (
                BLOCK_SZ as int));
            }
            assert(view1[block_id as int] =~= Seq::new(BLOCK_SZ as nat, |i: int| 0u8));
        }
    }

    /// Count the free data blocks among the first `limit` data bits,
    /// changing nothing.  A host checks this before a write that must
    /// allocate, since allocation demands a free block.
    pub fn free_data_blocks(&mut self, limit: u32) -> (r: u32)
        requires
            old(self).wf(),
            limit <= old(self).data_bitmap.capacity(),
        ensures
            final(self).wf(),
            final(self).same_layout(old(self)),
            fs_view(final(self)) == fs_view(old(self)),
            r == limit - count_set(
                fs_view(old(self)),
                old(self).data_bitmap.start(),
                limit as int,
            ),
    {
        let r = self.data_bitmap.count_free(
            &mut self.manager,
            &mut self.block_device,
            limit as usize,
        );
        proof {
            crate::bitmap::lemma_count_set_bounds(
                fs_view(old(self)),
                old(self).data_bitmap.start(),
                limit as int,
            );
        }
        r as u32
    }

    /// Global block id of data bit `data_bit`.
    pub fn get_data_block_id(&self, data_bit: u32) -> (r: u32)
        requires
            self.wf(),
            data_bit < self.data_limit(),
        ensures
            r == self.data_area_start_block + data_bit,
    {
        self.data_area_start_block + data_bit
    }

    /// On-disk position of inode bit `inode_bit`: its block and the byte
    /// offset of its record within that block.
    #[verifier::rlimit(30)]
    pub fn get_disk_inode_pos(&self, inode_bit: u32) -> (r: (u32, usize))
        requires
            self.wf(),
            inode_bit < self.inode_bitmap.capacity(),
        ensures
            r.0 == self.inode_area_start_block + inode_bit / (INODES_PER_BLOCK as u32),
            r.1 == (inode_bit % (INODES_PER_BLOCK as u32)) * (DISK_INODE_SZ as u32),
            self.inode_area_start_block <= r.0 < self.data_bitmap.start(),
            r.1 + DISK_INODE_SZ <= BLOCK_SZ,
    {
        let inodes_per_block = (BLOCK_SZ / DISK_INODE_SZ) as u32;
        proof {
            assert(self.inode_bitmap.capacity() % 4 == 0) by (nonlinear_arith)
                requires
                    self.inode_bitmap.capacity() == self.inode_bitmap.num_blocks() * (
                    BLOCK_BITS as int),
                    BLOCK_BITS == 4096,
            ;
            assert((inode_bit as int) / 4 < self.inode_bitmap.capacity() / 4 && inode_bit % 4
                < 4) by (nonlinear_arith)
                requires
                    0 <= inode_bit < self.inode_bitmap.capacity(),
                    self.inode_bitmap.capacity() % 4 == 0,
            ;
        }
        let block_id = self.inode_area_start_block + inode_bit / inodes_per_block;
        (block_id, (inode_bit % inodes_per_block) as usize * DISK_INODE_SZ)
    }
}

/// A bit below a bitmap's capacity lies in one of its blocks.
pub proof fn lemma_bit_block_bound(b: int, num_blocks: int)
    requires
        0 <= b < num_blocks * (BLOCK_BITS as int),
    ensures
        0 <= (b / 8) / (BLOCK_SZ as int) < num_blocks,
{
    assert((b / 8) / (BLOCK_SZ as int) < num_blocks) by (nonlinear_arith)
        requires
            0 <= b < num_blocks * (BLOCK_BITS as int),
            BLOCK_BITS == BLOCK_SZ * 8,
    ;
}

} // verus!
