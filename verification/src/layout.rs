//! The on-disk records: super block, inode, directory entry.
//!
//! Every record is a fixed-width little-endian structure, read and written
//! through explicit byte codecs; nothing is reinterpreted in place.  The
//! [`DiskInode`] carries the three-level direct/indirect index that maps a
//! file's logical blocks to physical block ids.
use vstd::prelude::*;
use vstd::bytes::{spec_u32_from_le_bytes, spec_u32_to_le_bytes, u32_from_le_bytes, u32_to_le_bytes,
    lemma_auto_spec_u32_to_from_le_bytes};
use vstd::slice::slice_subrange;
use vstd::string::StringSliceAdditionalSpecFns;
use vstd::arithmetic::div_mod::{
    lemma_fundamental_div_mod_converse_div, lemma_fundamental_div_mod_converse_mod,
};
use crate::BLOCK_SZ;
use crate::block_dev::{BlockDevice, blocks_wf};
use crate::block_cache::{BlockCacheManager, disk_view, splice, lemma_disk_view_wf};

verus! {

/// Magic number identifying a valid image.
pub const TFS_MAGIC: u32 = 0x3b800001;

/// Number of direct block ids held in a [`DiskInode`].
pub const INODE_DIRECT_COUNT: usize = 28;

/// Number of block ids held in one indirect block.
pub const INODE_INDIRECT1_COUNT: usize = 128;

/// Number of data blocks reachable through the doubly-indirect block.
pub const INODE_INDIRECT2_COUNT: usize = 16384;

/// Logical blocks below this index are direct.
pub const DIRECT_BOUND: usize = INODE_DIRECT_COUNT;

/// Logical blocks below this index are direct or singly indirect.
pub const INDIRECT1_BOUND: usize = 156;

/// One more than the largest reachable logical block index.
pub const INDIRECT2_BOUND: usize = 16540;

/// Longest visible name in a directory entry, in bytes.
pub const NAME_LENGTH_LIMIT: usize = 27;

/// Size of one serialized directory entry.
pub const DIR_ENTRY_SZ: usize = 32;

/// Size of one serialized disk inode.
pub const DISK_INODE_SZ: usize = 128;

/// Largest supported file size in bytes: [`INDIRECT2_BOUND`] data blocks.
pub const MAX_FILE_SZ: u32 = 8468480;

/// The `i`-th little-endian `u32` stored in the byte sequence `b`.
pub open spec fn u32_at(b: Seq<u8>, i: int) -> u32 {
    spec_u32_from_le_bytes(b.subrange(4 * i, 4 * i + 4))
}

/// Read the `idx`-th `u32` entry of block `block_id`.
pub fn read_u32<D: BlockDevice>(
    manager: &mut BlockCacheManager,
    block_device: &mut D,
    block_id: usize,
    idx: usize,
) -> (x: u32)
    requires
        old(manager).wf(old(block_device).blocks()),
        blocks_wf(old(block_device).blocks()),
        block_id < old(block_device).blocks().len(),
        idx < INODE_INDIRECT1_COUNT,
    ensures
        final(manager).wf(final(block_device).blocks()),
        blocks_wf(final(block_device).blocks()),
        final(block_device).blocks().len() == old(block_device).blocks().len(),
        disk_view(final(manager).entries(), final(block_device).blocks())
            == disk_view(old(manager).entries(), old(block_device).blocks()),
        x == u32_at(
            disk_view(old(manager).entries(), old(block_device).blocks())[block_id as int],
            idx as int,
        ),
{
    let bytes = manager.read_bytes(block_device, block_id, 4 * idx, 4);
    u32_from_le_bytes(bytes.as_slice())
}

/// Overwrite the `idx`-th `u32` entry of block `block_id`.  Only that entry
/// of that block changes.
pub fn write_u32<D: BlockDevice>(
    manager: &mut BlockCacheManager,
    block_device: &mut D,
    block_id: usize,
    idx: usize,
    x: u32,
) -> (r: ())
    requires
        old(manager).wf(old(block_device).blocks()),
        blocks_wf(old(block_device).blocks()),
        block_id < old(block_device).blocks().len(),
        idx < INODE_INDIRECT1_COUNT,
    ensures
        final(manager).wf(final(block_device).blocks()),
        blocks_wf(final(block_device).blocks()),
        final(block_device).blocks().len() == old(block_device).blocks().len(),
        ({
            let view0 = disk_view(old(manager).entries(), old(block_device).blocks());
            let view1 = disk_view(final(manager).entries(), final(block_device).blocks());
            &&& view1.len() == view0.len()
            &&& forall|p: int| 0 <= p < view0.len() && p != block_id ==> view1[p] == view0[p]
            &&& forall|j: int|
                0 <= j < INODE_INDIRECT1_COUNT ==> u32_at(view1[block_id as int], j) == (if j
                    == idx { x } else { u32_at(view0[block_id as int], j) })
        }),
{
    let ghost view0 = disk_view(manager.entries(), block_device.blocks());
    proof {
        lemma_disk_view_wf(manager.entries(), block_device.blocks());
        lemma_auto_spec_u32_to_from_le_bytes();
    }
    let data = u32_to_le_bytes(x);
    manager.write_bytes(block_device, block_id, 4 * idx, &data);
    proof {
        let view1 = disk_view(manager.entries(), block_device.blocks());
        assert(view1[block_id as int] == splice(view0[block_id as int], 4 * idx, data@));
        assert forall|j: int| 0 <= j < INODE_INDIRECT1_COUNT implies u32_at(
            view1[block_id as int],
            j,
        ) == (if j == idx { x } else { u32_at(view0[block_id as int], j) }) by {
            if j == idx {
                assert(view1[block_id as int].subrange(4 * j, 4 * j + 4) =~= data@);
            } else {
                assert(view1[block_id as int].subrange(4 * j, 4 * j + 4) =~= view0[
                    block_id as int].subrange(4 * j, 4 * j + 4));
            }
        }
    }
}

/// The super block: magic number plus the extent of each region of the
/// image, stored in the first 24 bytes of block 0.
pub struct SuperBlock {
    /// Magic number; [`TFS_MAGIC`] on a valid image.
    pub magic: u32,
    /// Total number of blocks of the image.
    pub total_blocks: u32,
    /// Blocks of the inode bitmap.
    pub inode_bitmap_blocks: u32,
    /// Blocks of the inode area.
    pub inode_area_blocks: u32,
    /// Blocks of the data bitmap.
    pub data_bitmap_blocks: u32,
    /// Blocks of the data area.
    pub data_area_blocks: u32,
}

/// The super block encoded in the first 24 bytes of `b`.
pub open spec fn super_block_of_bytes(b: Seq<u8>) -> SuperBlock {
    SuperBlock {
        magic: u32_at(b, 0),
        total_blocks: u32_at(b, 1),
        inode_bitmap_blocks: u32_at(b, 2),
        inode_area_blocks: u32_at(b, 3),
        data_bitmap_blocks: u32_at(b, 4),
        data_area_blocks: u32_at(b, 5),
    }
}

impl SuperBlock {
    /// Fill every field, setting the magic number.
    pub fn initialize(
        &mut self,
        total_blocks: u32,
        inode_bitmap_blocks: u32,
        inode_area_blocks: u32,
        data_bitmap_blocks: u32,
        data_area_blocks: u32,
    ) -> (r: ())
        ensures
            final(self).magic == TFS_MAGIC,
            final(self).total_blocks == total_blocks,
            final(self).inode_bitmap_blocks == inode_bitmap_blocks,
            final(self).inode_area_blocks == inode_area_blocks,
            final(self).data_bitmap_blocks == data_bitmap_blocks,
            final(self).data_area_blocks == data_area_blocks,
    {
        *self = SuperBlock {
            magic: TFS_MAGIC,
            total_blocks,
            inode_bitmap_blocks,
            inode_area_blocks,
            data_bitmap_blocks,
            data_area_blocks,
        };
    }

    /// Whether the magic number marks a valid image.
    pub fn is_valid(&self) -> (r: bool)
        ensures
            r == (self.magic == TFS_MAGIC),
    {
        self.magic == TFS_MAGIC
    }

    /// Serialize into 24 bytes that decode back to `self`.
    pub fn encode(&self) -> (r: Vec<u8>)
        ensures
            r@.len() == 24,
            super_block_of_bytes(r@) == *self,
    {
        proof {
            lemma_auto_spec_u32_to_from_le_bytes();
        }
        let mut r = u32_to_le_bytes(self.magic);
        let mut f = u32_to_le_bytes(self.total_blocks);
        r.append(&mut f);
        let mut f = u32_to_le_bytes(self.inode_bitmap_blocks);
        r.append(&mut f);
        let mut f = u32_to_le_bytes(self.inode_area_blocks);
        r.append(&mut f);
        let mut f = u32_to_le_bytes(self.data_bitmap_blocks);
        r.append(&mut f);
        let mut f = u32_to_le_bytes(self.data_area_blocks);
        r.append(&mut f);
        proof {
            assert(r@.subrange(0, 4) =~= spec_u32_to_le_bytes(self.magic));
            assert(r@.subrange(4, 8) =~= spec_u32_to_le_bytes(self.total_blocks));
            assert(r@.subrange(8, 12) =~= spec_u32_to_le_bytes(self.inode_bitmap_blocks));
            assert(r@.subrange(12, 16) =~= spec_u32_to_le_bytes(self.inode_area_blocks));
            assert(r@.subrange(16, 20) =~= spec_u32_to_le_bytes(self.data_bitmap_blocks));
            assert(r@.subrange(20, 24) =~= spec_u32_to_le_bytes(self.data_area_blocks));
        }
        r
    }

    /// Decode the super block from the first 24 bytes of `bytes`.
    pub fn decode(bytes: &Vec<u8>) -> (r: SuperBlock)
        requires
            bytes@.len() >= 24,
        ensures
            r == super_block_of_bytes(bytes@),
    {
        let s = bytes.as_slice();
        SuperBlock {
            magic: u32_from_le_bytes(slice_subrange(s, 0, 4)),
            total_blocks: u32_from_le_bytes(slice_subrange(s, 4, 8)),
            inode_bitmap_blocks: u32_from_le_bytes(slice_subrange(s, 8, 12)),
            inode_area_blocks: u32_from_le_bytes(slice_subrange(s, 12, 16)),
            data_bitmap_blocks: u32_from_le_bytes(slice_subrange(s, 16, 20)),
            data_area_blocks: u32_from_le_bytes(slice_subrange(s, 20, 24)),
        }
    }
}

/// What a disk inode describes: a regular file or a directory.
#[derive(PartialEq, Eq, Structural, Clone, Copy, Debug)]
pub enum DiskInodeType {
    /// A regular file.
    File,
    /// A directory.
    Directory,
}

/// The mathematical content of a [`DiskInode`].
pub struct DiskInodeView {
    /// File size in bytes.
    pub size: u32,
    /// The 28 direct block ids.
    pub direct: Seq<u32>,
    /// Block id of the singly-indirect block, 0 when absent.
    pub indirect1: u32,
    /// Block id of the doubly-indirect block, 0 when absent.
    pub indirect2: u32,
    /// File or directory.
    pub type_: DiskInodeType,
}

/// The on-disk metadata record of one file or directory.
pub struct DiskInode {
    /// File size in bytes.
    pub size: u32,
    /// The direct block ids; always [`INODE_DIRECT_COUNT`] entries.
    pub direct: Vec<u32>,
    /// Block id of the singly-indirect block, 0 when absent.
    pub indirect1: u32,
    /// Block id of the doubly-indirect block, 0 when absent.
    pub indirect2: u32,
    /// File or directory.
    pub type_: DiskInodeType,
}

impl View for DiskInode {
    type V = DiskInodeView;

    open spec fn view(&self) -> DiskInodeView {
        DiskInodeView {
            size: self.size,
            direct: self.direct@,
            indirect1: self.indirect1,
            indirect2: self.indirect2,
            type_: self.type_,
        }
    }
}

/// The inode encoded in the first [`DISK_INODE_SZ`] bytes of `b`: the size,
/// the 28 direct ids, the two indirect ids, and the type tag (1 for a
/// directory, any other value a file).
pub open spec fn inode_of_bytes(b: Seq<u8>) -> DiskInodeView {
    DiskInodeView {
        size: u32_at(b, 0),
        direct: Seq::new(INODE_DIRECT_COUNT as nat, |i: int| u32_at(b, 1 + i)),
        indirect1: u32_at(b, 29),
        indirect2: u32_at(b, 30),
        type_: if u32_at(b, 31) == 1u32 {
            DiskInodeType::Directory
        } else {
            DiskInodeType::File
        },
    }
}

/// The `k`-th 32-bit word of an inode's serialized form: the size, the 28
/// direct ids, the two indirect ids, and the type tag.
pub open spec fn inode_field(v: DiskInodeView, k: int) -> u32 {
    if k == 0 {
        v.size
    } else if k < 29 {
        v.direct[k - 1]
    } else if k == 29 {
        v.indirect1
    } else if k == 30 {
        v.indirect2
    } else if v.type_ == DiskInodeType::Directory {
        1u32
    } else {
        0u32
    }
}

/// Number of data blocks needed for `size` bytes.
pub open spec fn data_blocks_of(size: int) -> int {
    (size + BLOCK_SZ - 1) / (BLOCK_SZ as int)
}

/// Number of singly-indirect blocks hanging off the doubly-indirect block
/// when a file has `db` data blocks.
pub open spec fn ind2_groups_of(db: int) -> int {
    if db > INDIRECT1_BOUND {
        (db - INDIRECT1_BOUND + INODE_INDIRECT1_COUNT - 1) / (INODE_INDIRECT1_COUNT as int)
    } else {
        0
    }
}

/// Blocks owned at `cnt` data blocks: the data blocks plus the index
/// blocks above them.
pub open spec fn total_of_blocks(cnt: int) -> int {
    cnt + (if cnt > DIRECT_BOUND {
        1int
    } else {
        0int
    }) + (if cnt > INDIRECT1_BOUND {
        1int
    } else {
        0int
    }) + ind2_groups_of(cnt)
}

/// Total blocks owned by a file of `size` bytes: its data blocks plus the
/// index blocks above them.
pub open spec fn total_blocks_of(size: int) -> int {
    total_of_blocks(data_blocks_of(size))
}

impl DiskInode {
    /// The direct table always holds exactly [`INODE_DIRECT_COUNT`] ids.
    pub open spec fn wf(&self) -> bool {
        self.direct@.len() == INODE_DIRECT_COUNT
    }

    /// A fresh inode of the given type: zero size, no blocks.
    pub fn initialize(type_: DiskInodeType) -> (r: DiskInode)
        ensures
            r.wf(),
            r@.size == 0,
            r@.indirect1 == 0,
            r@.indirect2 == 0,
            r@.type_ == type_,
            forall|i: int| 0 <= i < INODE_DIRECT_COUNT ==> r@.direct[i] == 0u32,
    {
        let direct: Vec<u32> = vec![0u32; INODE_DIRECT_COUNT];
        DiskInode { size: 0, direct, indirect1: 0, indirect2: 0, type_ }
    }

    /// Whether this inode is a directory.
    pub fn is_dir(&self) -> (r: bool)
        ensures
            r == (self@.type_ == DiskInodeType::Directory),
    {
        self.type_ == DiskInodeType::Directory
    }

    /// Whether this inode is a regular file.
    pub fn is_file(&self) -> (r: bool)
        ensures
            r == (self@.type_ == DiskInodeType::File),
    {
        self.type_ == DiskInodeType::File
    }

    /// Number of data blocks backing `size` bytes.
    pub fn _data_blocks(size: u32) -> (r: u32)
        requires
            size <= MAX_FILE_SZ,
        ensures
            r == data_blocks_of(size as int),
    {
        (size + BLOCK_SZ as u32 - 1) / BLOCK_SZ as u32
    }

    /// Number of data blocks this inode currently holds.
    pub fn data_blocks(&self) -> (r: u32)
        requires
            self@.size <= MAX_FILE_SZ,
        ensures
            r == data_blocks_of(self@.size as int),
    {
        Self::_data_blocks(self.size)
    }

    /// Total blocks owned at `size` bytes, index blocks included.
    pub fn total_blocks(size: u32) -> (r: u32)
        requires
            size <= MAX_FILE_SZ,
        ensures
            r == total_blocks_of(size as int),
    {
        let data_blocks = Self::_data_blocks(size);
        let mut total = data_blocks;
        if data_blocks > DIRECT_BOUND as u32 {
            total += 1;
        }
        if data_blocks > INDIRECT1_BOUND as u32 {
            total += 1;
            total += (data_blocks - INDIRECT1_BOUND as u32 + INODE_INDIRECT1_COUNT as u32 - 1)
                / INODE_INDIRECT1_COUNT as u32;
        }
        total
    }

    /// How many fresh blocks growing to `new_size` bytes takes.
    pub fn blocks_num_needed(&self, new_size: u32) -> (r: u32)
        requires
            new_size >= self@.size,
            new_size <= MAX_FILE_SZ,
        ensures
            r == total_blocks_of(new_size as int) - total_blocks_of(self@.size as int),
    {
        proof {
            lemma_total_blocks_monotonic(self@.size as int, new_size as int);
        }
        Self::total_blocks(new_size) - Self::total_blocks(self.size)
    }

    /// Serialize into [`DISK_INODE_SZ`] bytes that decode back to `self`.
    /// The encoding is canonical: every word of the output is fixed, so two
    /// equal inodes serialize to identical bytes.
    #[verifier::loop_isolation(false)]
    pub fn encode(&self) -> (r: Vec<u8>)
        requires
            self.wf(),
        ensures
            r@.len() == DISK_INODE_SZ,
            inode_of_bytes(r@) == self@,
            forall|k: int|
                0 <= k < 32 ==> #[trigger] r@.subrange(4 * k, 4 * k + 4)
                    == spec_u32_to_le_bytes(inode_field(self@, k)),
    {
        proof {
            lemma_auto_spec_u32_to_from_le_bytes();
        }
        let mut r = u32_to_le_bytes(self.size);
        let mut i: usize = 0;
        while i < INODE_DIRECT_COUNT
            invariant
                i <= INODE_DIRECT_COUNT,
                self.wf(),
                r@.len() == 4 + 4 * i,
                r@.subrange(0, 4) == spec_u32_to_le_bytes(self.size),
                forall|k: int|
                    0 <= k < i ==> r@.subrange(4 + 4 * k, 4 + 4 * k + 4) == spec_u32_to_le_bytes(
                        self.direct@[k],
                    ),
            decreases INODE_DIRECT_COUNT - i,
        {
            let ghost r0 = r@;
            let mut f = u32_to_le_bytes(self.direct[i]);
            r.append(&mut f);
            proof {
                assert(r@.subrange(0, 4) =~= r0.subrange(0, 4));
                assert forall|k: int| 0 <= k < i + 1 implies r@.subrange(
                    4 + 4 * k,
                    4 + 4 * k + 4,
                ) == spec_u32_to_le_bytes(self.direct@[k]) by {
                    if k < i {
                        assert(r@.subrange(4 + 4 * k, 4 + 4 * k + 4) =~= r0.subrange(
                            4 + 4 * k,
                            4 + 4 * k + 4,
                        ));
                    } else {
                        assert(r@.subrange(4 + 4 * k, 4 + 4 * k + 4) =~= spec_u32_to_le_bytes(
                            self.direct@[k],
                        ));
                    }
                }
            }
            i += 1;
        }
        let ghost r1 = r@;
        let mut f = u32_to_le_bytes(self.indirect1);
        r.append(&mut f);
        let mut f = u32_to_le_bytes(self.indirect2);
        r.append(&mut f);
        let tag: u32 = if self.is_dir() {
            1
        } else {
            0
        };
        let mut f = u32_to_le_bytes(tag);
        r.append(&mut f);
        proof {
            assert(r@.len() == DISK_INODE_SZ);
            assert forall|k: int| 0 <= k < 29 implies #[trigger] r@.subrange(4 * k, 4 * k + 4)
                == r1.subrange(4 * k, 4 * k + 4) by {
                assert(r@.subrange(4 * k, 4 * k + 4) =~= r1.subrange(4 * k, 4 * k + 4));
            }
            assert(r@.subrange(116, 120) =~= spec_u32_to_le_bytes(self.indirect1));
            assert(r@.subrange(120, 124) =~= spec_u32_to_le_bytes(self.indirect2));
            assert(r@.subrange(124, 128) =~= spec_u32_to_le_bytes(tag));
            assert(inode_of_bytes(r@).direct =~= self@.direct);
            assert(inode_of_bytes(r@) == self@);
            assert forall|k: int| 0 <= k < 32 implies #[trigger] r@.subrange(4 * k, 4 * k + 4)
                == spec_u32_to_le_bytes(inode_field(self@, k)) by {
                if 1 <= k < 29 {
                    assert(r@.subrange(4 * k, 4 * k + 4) =~= r1.subrange(4 * k, 4 * k + 4));
                    assert(r1.subrange(4 + 4 * (k - 1), 4 + 4 * (k - 1) + 4)
                        == spec_u32_to_le_bytes(self.direct@[k - 1]));
                } else if k == 0 {
                    assert(r@.subrange(0, 4) =~= r1.subrange(0, 4));
                }
            }
        }
        r
    }

    /// Decode an inode from the first [`DISK_INODE_SZ`] bytes of `bytes`.
    #[verifier::loop_isolation(false)]
    pub fn decode(bytes: &Vec<u8>) -> (r: DiskInode)
        requires
            bytes@.len() >= DISK_INODE_SZ,
        ensures
            r.wf(),
            r@ == inode_of_bytes(bytes@.subrange(0, DISK_INODE_SZ as int)),
    {
        let ghost b = bytes@.subrange(0, DISK_INODE_SZ as int);
        proof {
            assert forall|k: int| 0 <= k < 32 implies #[trigger] b.subrange(4 * k, 4 * k + 4)
                == bytes@.subrange(4 * k, 4 * k + 4) by {
                assert(b.subrange(4 * k, 4 * k + 4) =~= bytes@.subrange(4 * k, 4 * k + 4));
            }
        }
        let s = bytes.as_slice();
        let size = u32_from_le_bytes(slice_subrange(s, 0, 4));
        let mut direct: Vec<u32> = Vec::new();
        let mut i: usize = 0;
        while i < INODE_DIRECT_COUNT
            invariant
                i <= INODE_DIRECT_COUNT,
                bytes@.len() >= DISK_INODE_SZ,
                direct@.len() == i,
                forall|k: int| 0 <= k < i ==> direct@[k] == u32_at(bytes@, 1 + k),
            decreases INODE_DIRECT_COUNT - i,
        {
            let x = u32_from_le_bytes(slice_subrange(s, 4 + 4 * i, 4 + 4 * i + 4));
            direct.push(x);
            i += 1;
        }
        let indirect1 = u32_from_le_bytes(slice_subrange(s, 116, 120));
        let indirect2 = u32_from_le_bytes(slice_subrange(s, 120, 124));
        let tag = u32_from_le_bytes(slice_subrange(s, 124, 128));
        let type_ = if tag == 1 {
            DiskInodeType::Directory
        } else {
            DiskInodeType::File
        };
        let r = DiskInode { size, direct, indirect1, indirect2, type_ };
        proof {
            assert(r@.direct =~= inode_of_bytes(b).direct);
            assert(r@ == inode_of_bytes(b));
        }
        r
    }
}

/// Physical block id of logical block `i` of inode `v`, as the index
/// structure on `disk` maps it: direct table, then the singly-indirect
/// block, then the doubly-indirect tree.
pub open spec fn block_id_of(v: DiskInodeView, disk: Seq<Seq<u8>>, i: int) -> u32 {
    if i < DIRECT_BOUND {
        v.direct[i]
    } else if i < INDIRECT1_BOUND {
        u32_at(disk[v.indirect1 as int], i - DIRECT_BOUND)
    } else {
        let a = (i - INDIRECT1_BOUND) / (INODE_INDIRECT1_COUNT as int);
        let b = (i - INDIRECT1_BOUND) % (INODE_INDIRECT1_COUNT as int);
        u32_at(disk[u32_at(disk[v.indirect2 as int], a) as int], b)
    }
}

/// Byte `p` of the file described by `v`, read through its index.
pub open spec fn file_byte(v: DiskInodeView, disk: Seq<Seq<u8>>, p: int) -> u8 {
    disk[block_id_of(v, disk, p / (BLOCK_SZ as int)) as int][p % (BLOCK_SZ as int)]
}

/// The index structure of `v` is sound on `disk` for the first `cnt` data
/// blocks: the count fits the index, every index block and every reachable
/// data block id is in range.
pub open spec fn index_wf_at(v: DiskInodeView, disk: Seq<Seq<u8>>, cnt: int) -> bool {
    &&& v.direct.len() == INODE_DIRECT_COUNT
    &&& cnt <= INDIRECT2_BOUND
    &&& cnt > DIRECT_BOUND ==> v.indirect1 < disk.len()
    &&& cnt > INDIRECT1_BOUND ==> v.indirect2 < disk.len()
    &&& cnt > INDIRECT1_BOUND ==> forall|a: int|
        0 <= a < ind2_groups_of(cnt) ==> u32_at(disk[v.indirect2 as int], a) < disk.len()
    &&& forall|i: int| 0 <= i < cnt ==> (#[trigger] block_id_of(v, disk, i)) < disk.len()
}

/// The index structure of `v` is sound on `disk` for its whole size.
pub open spec fn inode_index_wf(v: DiskInodeView, disk: Seq<Seq<u8>>) -> bool {
    index_wf_at(v, disk, data_blocks_of(v.size as int))
}

/// Whether block `p` serves as one of the index blocks of `v` at `cnt` data
/// blocks.
pub open spec fn is_index_block_at(
    v: DiskInodeView,
    disk: Seq<Seq<u8>>,
    cnt: int,
    p: int,
) -> bool {
    ||| (cnt > DIRECT_BOUND && p == v.indirect1)
    ||| (cnt > INDIRECT1_BOUND && p == v.indirect2)
    ||| (cnt > INDIRECT1_BOUND && exists|a: int|
        0 <= a < ind2_groups_of(cnt) && u32_at(disk[v.indirect2 as int], a) == p)
}

/// Whether block `p` serves as one of the index blocks of `v`.
pub open spec fn is_index_block(v: DiskInodeView, disk: Seq<Seq<u8>>, p: int) -> bool {
    is_index_block_at(v, disk, data_blocks_of(v.size as int), p)
}

/// The first `cnt` data blocks of `v` are pairwise distinct, none doubles
/// as an index block, and the index blocks are pairwise distinct too.
pub open spec fn blocks_distinct_at(v: DiskInodeView, disk: Seq<Seq<u8>>, cnt: int) -> bool {
    &&& forall|i: int, j: int|
        0 <= i < j < cnt ==> (#[trigger] block_id_of(v, disk, i)) != (#[trigger] block_id_of(
            v,
            disk,
            j,
        ))
    &&& forall|i: int|
        0 <= i < cnt ==> !is_index_block_at(
            v,
            disk,
            cnt,
            (#[trigger] block_id_of(v, disk, i)) as int,
        )
    &&& cnt > INDIRECT1_BOUND ==> v.indirect1 != v.indirect2
    &&& cnt > INDIRECT1_BOUND ==> forall|a: int|
        0 <= a < ind2_groups_of(cnt) ==> (#[trigger] u32_at(disk[v.indirect2 as int], a))
            != v.indirect1 && u32_at(disk[v.indirect2 as int], a) != v.indirect2
    &&& cnt > INDIRECT1_BOUND ==> forall|a: int, b: int|
        0 <= a < b < ind2_groups_of(cnt) ==> (#[trigger] u32_at(disk[v.indirect2 as int], a))
            != (#[trigger] u32_at(disk[v.indirect2 as int], b))
}

/// The data blocks of `v` are pairwise distinct and none doubles as an
/// index block.
pub open spec fn inode_blocks_distinct(v: DiskInodeView, disk: Seq<Seq<u8>>) -> bool {
    blocks_distinct_at(v, disk, data_blocks_of(v.size as int))
}

/// The physical blocks owned through the index at `cnt` data blocks: the
/// data blocks in order, then the index blocks above them.
pub open spec fn owned_ids(v: DiskInodeView, disk: Seq<Seq<u8>>, cnt: int) -> Seq<u32> {
    Seq::new(cnt as nat, |i: int| block_id_of(v, disk, i)) + (if cnt > DIRECT_BOUND {
        seq![v.indirect1]
    } else {
        Seq::empty()
    }) + (if cnt > INDIRECT1_BOUND {
        seq![v.indirect2]
    } else {
        Seq::empty()
    }) + Seq::new(ind2_groups_of(cnt) as nat, |a: int| u32_at(disk[v.indirect2 as int], a))
}

/// Whether some logical block in `[lo, hi]` of `v` maps to physical block
/// `p`.
pub open spec fn maps_range_to(
    v: DiskInodeView,
    disk: Seq<Seq<u8>>,
    lo: int,
    hi: int,
    p: int,
) -> bool {
    exists|i: int| lo <= i <= hi && (#[trigger] block_id_of(v, disk, i)) == p
}

/// A logical block index within `[blk * BLOCK_SZ, (blk + 1) * BLOCK_SZ)`
/// decomposes onto block `blk`.
pub proof fn lemma_block_decompose(p: int, blk: int)
    requires
        (BLOCK_SZ as int) * blk <= p < (BLOCK_SZ as int) * (blk + 1),
        0 <= blk,
    ensures
        p / (BLOCK_SZ as int) == blk,
        p % (BLOCK_SZ as int) == p - (BLOCK_SZ as int) * blk,
{
    lemma_fundamental_div_mod_converse_div(p, BLOCK_SZ as int, blk, p - (BLOCK_SZ as int) * blk);
    lemma_fundamental_div_mod_converse_mod(p, BLOCK_SZ as int, blk, p - (BLOCK_SZ as int) * blk);
}

impl DiskInode {
    /// Physical block id of logical block `inner_id`, walking the indirect
    /// blocks as needed.  A pure lookup: the byte store is unchanged.
    pub fn get_block_id<D: BlockDevice>(
        &self,
        inner_id: u32,
        manager: &mut BlockCacheManager,
        block_device: &mut D,
    ) -> (r: u32)
        requires
            old(manager).wf(old(block_device).blocks()),
            blocks_wf(old(block_device).blocks()),
            inode_index_wf(
                self@,
                disk_view(old(manager).entries(), old(block_device).blocks()),
            ),
            inner_id < data_blocks_of(self@.size as int),
        ensures
            final(manager).wf(final(block_device).blocks()),
            blocks_wf(final(block_device).blocks()),
            final(block_device).blocks().len() == old(block_device).blocks().len(),
            disk_view(final(manager).entries(), final(block_device).blocks())
                == disk_view(old(manager).entries(), old(block_device).blocks()),
            r == block_id_of(
                self@,
                disk_view(old(manager).entries(), old(block_device).blocks()),
                inner_id as int,
            ),
    {
        let ghost view0 = disk_view(manager.entries(), block_device.blocks());
        let ghost db = data_blocks_of(self@.size as int);
        let inner = inner_id as usize;
        if inner < INODE_DIRECT_COUNT {
            self.direct[inner]
        } else if inner < INDIRECT1_BOUND {
            read_u32(manager, block_device, self.indirect1 as usize, inner - INODE_DIRECT_COUNT)
        } else {
            let idx = inner - INDIRECT1_BOUND;
            let a = idx / INODE_INDIRECT1_COUNT;
            let b = idx % INODE_INDIRECT1_COUNT;
            proof {
                assert((a as int) < ind2_groups_of(db)) by (nonlinear_arith)
                    requires
                        a as int == idx as int / (INODE_INDIRECT1_COUNT as int),
                        (idx as int) < db - INDIRECT1_BOUND,
                        db > INDIRECT1_BOUND,
                        ind2_groups_of(db) == (db - INDIRECT1_BOUND + INODE_INDIRECT1_COUNT - 1) / (
                        INODE_INDIRECT1_COUNT as int),
                ;
                assert(a < INODE_INDIRECT1_COUNT) by (nonlinear_arith)
                    requires
                        a as int == idx as int / (INODE_INDIRECT1_COUNT as int),
                        idx < INODE_INDIRECT2_COUNT,
                ;
            }
            let ind1 = read_u32(manager, block_device, self.indirect2 as usize, a);
            read_u32(manager, block_device, ind1 as usize, b)
        }
    }

    /// Read up to `buf.len()` bytes starting at byte `offset` of the file
    /// into the front of `buf`.  Returns how many bytes were read: all that
    /// the buffer can take, clamped by the end of the file, and 0 when
    /// `offset` is at or past the end.  Bytes of `buf` past the count keep
    /// their old values; the byte store is unchanged.
    #[verifier::loop_isolation(false)]
    pub fn read_at<D: BlockDevice>(
        &self,
        offset: usize,
        buf: &mut Vec<u8>,
        manager: &mut BlockCacheManager,
        block_device: &mut D,
    ) -> (r: usize)
        requires
            old(manager).wf(old(block_device).blocks()),
            blocks_wf(old(block_device).blocks()),
            inode_index_wf(
                self@,
                disk_view(old(manager).entries(), old(block_device).blocks()),
            ),
            self@.size <= MAX_FILE_SZ,
            offset + old(buf).len() <= usize::MAX,
        ensures
            final(manager).wf(final(block_device).blocks()),
            blocks_wf(final(block_device).blocks()),
            final(block_device).blocks().len() == old(block_device).blocks().len(),
            disk_view(final(manager).entries(), final(block_device).blocks())
                == disk_view(old(manager).entries(), old(block_device).blocks()),
            final(buf).len() == old(buf).len(),
            r == (if offset >= self@.size {
                0int
            } else if offset + old(buf).len() <= self@.size {
                old(buf).len() as int
            } else {
                self@.size - offset
            }),
            forall|k: int|
                0 <= k < r ==> final(buf)@[k] == file_byte(
                    self@,
                    disk_view(old(manager).entries(), old(block_device).blocks()),
                    offset + k,
                ),
            forall|k: int| r <= k < old(buf).len() ==> final(buf)@[k] == old(buf)@[k],
    {
        let ghost view0 = disk_view(manager.entries(), block_device.blocks());
        let ghost v = self@;
        proof {
            lemma_disk_view_wf(manager.entries(), block_device.blocks());
        }
        let size = self.size as usize;
        let end = if offset + buf.len() < size {
            offset + buf.len()
        } else {
            size
        };
        if offset >= end {
            return 0;
        }
        let mut start = offset;
        let mut read_size: usize = 0;
        while start < end
            invariant
                offset <= start <= end,
                read_size == start - offset,
                manager.wf(block_device.blocks()),
                blocks_wf(block_device.blocks()),
                block_device.blocks().len() == old(block_device).blocks().len(),
                disk_view(manager.entries(), block_device.blocks()) == view0,
                buf@.len() == old(buf).len(),
                forall|k: int| 0 <= k < read_size ==> buf@[k] == file_byte(v, view0, offset + k),
                forall|k: int| read_size <= k < buf@.len() ==> buf@[k] == old(buf)@[k],
            decreases end - start,
        {
            let block: usize = start / BLOCK_SZ;
            let block_end = if (block + 1) * BLOCK_SZ < end {
                (block + 1) * BLOCK_SZ
            } else {
                end
            };
            let n = block_end - start;
            proof {
                assert(block < data_blocks_of(v.size as int)) by (nonlinear_arith)
                    requires
                        block as int == start as int / (BLOCK_SZ as int),
                        start < size,
                        size == v.size,
                        data_blocks_of(v.size as int) == (v.size + BLOCK_SZ - 1) / (
                        BLOCK_SZ as int),
                ;
            }
            let pid = self.get_block_id(block as u32, manager, block_device);
            let off_in_block = start % BLOCK_SZ;
            proof {
                assert(BLOCK_SZ as int * block <= start as int
                    && (start as int) < BLOCK_SZ as int * (block + 1)
                    && off_in_block as int == start as int - BLOCK_SZ as int * block)
                    by (nonlinear_arith)
                    requires
                        block as int == start as int / (BLOCK_SZ as int),
                        off_in_block as int == start as int % (BLOCK_SZ as int),
                ;
            }
            let chunk = manager.read_bytes(block_device, pid as usize, off_in_block, n);
            let ghost buf0 = buf@;
            let mut j: usize = 0;
            while j < n
                invariant
                    j <= n,
                    read_size + n <= buf@.len(),
                    buf@.len() == buf0.len(),
                    chunk@.len() == n,
                    forall|k: int| 0 <= k < j ==> buf@[read_size + k] == chunk@[k],
                    forall|k: int|
                        0 <= k < buf@.len() && !(read_size <= k < read_size + j) ==> buf@[k]
                            == buf0[k],
                decreases n - j,
            {
                let b = chunk[j];
                buf.set(read_size + j, b);
                j += 1;
            }
            proof {
                assert forall|k: int| 0 <= k < read_size + n implies buf@[k] == file_byte(
                    v,
                    view0,
                    offset + k,
                ) by {
                    if k >= read_size {
                        let p = offset + k;
                        lemma_block_decompose(p, block as int);
                        assert(p / (BLOCK_SZ as int) == block as int);
                        assert(pid == block_id_of(v, view0, block as int));
                        assert(buf@[read_size + (k - read_size)] == chunk@[k - read_size]);
                        assert(chunk@[k - read_size] == view0[pid as int].subrange(
                            off_in_block as int,
                            off_in_block + n,
                        )[k - read_size]);
                        assert(chunk@[k - read_size] == view0[pid as int][off_in_block + (k
                            - read_size)]);
                        assert(p % (BLOCK_SZ as int) == off_in_block + (k - read_size));
                    } else {
                        assert(buf@[k] == buf0[k]);
                    }
                }
            }
            read_size += n;
            start = block_end;
        }
        read_size
    }

    /// Write `buf` at byte `offset` of the file, within the current size
    /// only: bytes from `min(offset + buf.len(), size)` on are not written,
    /// and the file does not grow.  Returns the number of bytes written.
    /// Only the touched data blocks change: the index structure, every
    /// other block, and every file byte outside the written range keep
    /// their values.
    #[verifier::loop_isolation(false)]
    #[verifier::rlimit(30)]
    pub fn write_at<D: BlockDevice>(
        &self,
        offset: usize,
        buf: &Vec<u8>,
        manager: &mut BlockCacheManager,
        block_device: &mut D,
    ) -> (r: usize)
        requires
            old(manager).wf(old(block_device).blocks()),
            blocks_wf(old(block_device).blocks()),
            inode_index_wf(
                self@,
                disk_view(old(manager).entries(), old(block_device).blocks()),
            ),
            inode_blocks_distinct(
                self@,
                disk_view(old(manager).entries(), old(block_device).blocks()),
            ),
            self@.size <= MAX_FILE_SZ,
            offset <= self@.size,
            offset + buf.len() <= usize::MAX,
        ensures
            final(manager).wf(final(block_device).blocks()),
            blocks_wf(final(block_device).blocks()),
            final(block_device).blocks().len() == old(block_device).blocks().len(),
            ({
                let view0 = disk_view(old(manager).entries(), old(block_device).blocks());
                let view1 = disk_view(final(manager).entries(), final(block_device).blocks());
                let v = self@;
                let end = if offset + buf.len() <= v.size {
                    offset + buf.len()
                } else {
                    v.size as int
                };
                &&& r == end - offset
                &&& view1.len() == view0.len()
                &&& forall|i: int|
                    0 <= i < data_blocks_of(v.size as int) ==> #[trigger] block_id_of(v, view1, i)
                        == block_id_of(v, view0, i)
                &&& forall|p: int|
                    0 <= p < view0.len() && !maps_range_to(
                        v,
                        view0,
                        offset as int / (BLOCK_SZ as int),
                        (end - 1) / (BLOCK_SZ as int),
                        p,
                    ) ==> view1[p] == view0[p]
                &&& forall|k: int|
                    offset <= k < end ==> #[trigger] file_byte(v, view1, k) == buf@[k - offset]
                &&& forall|k: int|
                    0 <= k < v.size && !(offset <= k < end) ==> #[trigger] file_byte(v, view1, k)
                        == file_byte(v, view0, k)
                &&& inode_index_wf(v, view1)
                &&& inode_blocks_distinct(v, view1)
            }),
    {
        let ghost view0 = disk_view(manager.entries(), block_device.blocks());
        let ghost v = self@;
        let ghost db = data_blocks_of(v.size as int);
        proof {
            lemma_disk_view_wf(manager.entries(), block_device.blocks());
        }
        let size = self.size as usize;
        let end = if offset + buf.len() < size {
            offset + buf.len()
        } else {
            size
        };
        let ghost first: int = offset as int / (BLOCK_SZ as int);
        let ghost last: int = (end - 1) / (BLOCK_SZ as int);
        let mut start = offset;
        let mut write_size: usize = 0;
        while start < end
            invariant
                offset <= start <= end,
                end <= size,
                size == v.size,
                end as int == (if offset + buf.len() <= v.size {
                    offset + buf@.len()
                } else {
                    v.size as int
                }),
                write_size == start - offset,
                start == offset || start % BLOCK_SZ == 0 || start == end,
                manager.wf(block_device.blocks()),
                blocks_wf(block_device.blocks()),
                block_device.blocks().len() == old(block_device).blocks().len(),
                disk_view(manager.entries(), block_device.blocks()).len() == view0.len(),
                inode_index_wf(v, disk_view(manager.entries(), block_device.blocks())),
                inode_blocks_distinct(v, disk_view(manager.entries(), block_device.blocks())),
                forall|i: int|
                    0 <= i < db ==> #[trigger] block_id_of(
                        v,
                        disk_view(manager.entries(), block_device.blocks()),
                        i,
                    ) == block_id_of(v, view0, i),
                forall|p: int|
                    0 <= p < view0.len() && !maps_range_to(v, view0, first, last, p)
                        ==> #[trigger] disk_view(manager.entries(), block_device.blocks())[p]
                        == view0[p],
                forall|k: int|
                    offset <= k < start ==> #[trigger] file_byte(
                        v,
                        disk_view(manager.entries(), block_device.blocks()),
                        k,
                    ) == buf@[k - offset],
                forall|k: int|
                    0 <= k < v.size && !(offset <= k < end) ==> #[trigger] file_byte(
                        v,
                        disk_view(manager.entries(), block_device.blocks()),
                        k,
                    ) == file_byte(v, view0, k),
            decreases end - start,
        {
            let ghost viewc = disk_view(manager.entries(), block_device.blocks());
            let block: usize = start / BLOCK_SZ;
            let block_end = if (block + 1) * BLOCK_SZ < end {
                (block + 1) * BLOCK_SZ
            } else {
                end
            };
            let nn = block_end - start;
            proof {
                assert(block < db) by (nonlinear_arith)
                    requires
                        block as int == start as int / (BLOCK_SZ as int),
                        start < size,
                        size == v.size,
                        db == (v.size + BLOCK_SZ - 1) / (BLOCK_SZ as int),
                ;
                assert(BLOCK_SZ as int * block <= start as int
                    && (start as int) < BLOCK_SZ as int * (block + 1)
                    && start as int % (BLOCK_SZ as int) == start as int - BLOCK_SZ as int * block)
                    by (nonlinear_arith)
                    requires block as int == start as int / (BLOCK_SZ as int),
                ;
                vstd::arithmetic::div_mod::lemma_div_is_ordered(
                    offset as int,
                    start as int,
                    BLOCK_SZ as int,
                );
                vstd::arithmetic::div_mod::lemma_div_is_ordered(
                    start as int,
                    end - 1,
                    BLOCK_SZ as int,
                );
                assert(first <= block as int <= last);
            }
            let pid = self.get_block_id(block as u32, manager, block_device);
            let off_in_block = start % BLOCK_SZ;
            let mut chunk: Vec<u8> = Vec::new();
            let mut t: usize = 0;
            while t < nn
                invariant
                    t <= nn,
                    write_size + nn <= buf@.len(),
                    chunk@.len() == t,
                    forall|s: int| 0 <= s < t ==> chunk@[s] == buf@[write_size + s],
                decreases nn - t,
            {
                let b = buf[write_size + t];
                chunk.push(b);
                t += 1;
            }
            manager.write_bytes(block_device, pid as usize, off_in_block, &chunk);
            proof {
                let viewd = disk_view(manager.entries(), block_device.blocks());
                let bp = pid as int;
                assert(pid == block_id_of(v, view0, block as int));
                assert(!is_index_block(v, viewc, bp));
                assert(viewd == viewc.update(bp, splice(viewc[bp], off_in_block as int, chunk@)));
                assert(viewc[bp].len() == BLOCK_SZ);
                // the index blocks are untouched, so the mapping is stable
                assert forall|i: int| 0 <= i < db implies #[trigger] block_id_of(v, viewd, i)
                    == block_id_of(v, viewc, i) by {
                    if i >= DIRECT_BOUND {
                        assert(v.indirect1 != bp);
                        assert(viewd[v.indirect1 as int] == viewc[v.indirect1 as int]);
                        if i >= INDIRECT1_BOUND {
                            assert(v.indirect2 != bp);
                            assert(viewd[v.indirect2 as int] == viewc[v.indirect2 as int]);
                            let a = (i - INDIRECT1_BOUND) / (INODE_INDIRECT1_COUNT as int);
                            assert((a as int) < ind2_groups_of(db)) by (nonlinear_arith)
                                requires
                                    a == (i - INDIRECT1_BOUND) / (INODE_INDIRECT1_COUNT as int),
                                    INDIRECT1_BOUND <= i < db,
                                    ind2_groups_of(db) == (db - INDIRECT1_BOUND
                                        + INODE_INDIRECT1_COUNT - 1) / (
                                    INODE_INDIRECT1_COUNT as int),
                            ;
                            assert(0 <= a) by (nonlinear_arith)
                                requires
                                    a == (i - INDIRECT1_BOUND) / (INODE_INDIRECT1_COUNT as int),
                                    INDIRECT1_BOUND <= i,
                            ;
                            assert(u32_at(viewc[v.indirect2 as int], a) != bp);
                            assert(viewd[u32_at(viewc[v.indirect2 as int], a) as int] == viewc[
                                u32_at(viewc[v.indirect2 as int], a) as int]);
                        }
                    }
                }
                // and the index blocks keep their contents
                assert(db > DIRECT_BOUND ==> viewd[v.indirect1 as int] == viewc[
                    v.indirect1 as int]);
                assert(db > INDIRECT1_BOUND ==> viewd[v.indirect2 as int] == viewc[
                    v.indirect2 as int]);
                assert forall|p: int| is_index_block(v, viewd, p) == is_index_block(v, viewc, p)
                    by {
                    if db > INDIRECT1_BOUND {
                        assert(viewd[v.indirect2 as int] == viewc[v.indirect2 as int]);
                    }
                }
                assert(inode_index_wf(v, viewd));
                assert(inode_blocks_distinct(v, viewd));
                // content: the block just written, and everything before it
                assert forall|k: int| offset <= k < block_end implies #[trigger] file_byte(
                    v,
                    viewd,
                    k,
                ) == buf@[k - offset] by {
                    let kb = k / (BLOCK_SZ as int);
                    if k >= start {
                        lemma_block_decompose(k, block as int);
                        assert(kb == block as int);
                        assert(block_id_of(v, viewd, kb) == pid);
                        assert(viewd[bp][k % (BLOCK_SZ as int)] == splice(
                            viewc[bp],
                            off_in_block as int,
                            chunk@,
                        )[k % (BLOCK_SZ as int)]);
                        assert(k % (BLOCK_SZ as int) - off_in_block == k - start);
                        assert(viewd[bp][k % (BLOCK_SZ as int)] == chunk@[k - start]);
                        assert(chunk@[k - start] == buf@[write_size + (k - start)]);
                    } else {
                        // a block finished in an earlier iteration
                        vstd::arithmetic::div_mod::lemma_div_is_ordered(
                            k,
                            start as int,
                            BLOCK_SZ as int,
                        );
                        assert(start == offset || start as int % (BLOCK_SZ as int) == 0
                            || start == end);
                        assert(start as int % (BLOCK_SZ as int) == 0 || start == offset);
                        assert(kb < block as int) by (nonlinear_arith)
                            requires
                                kb == k / (BLOCK_SZ as int),
                                block as int == start as int / (BLOCK_SZ as int),
                                0 <= k < start,
                                start as int % (BLOCK_SZ as int) == 0,
                                BLOCK_SZ as int * block <= start as int,
                        ;
                        assert(0 <= kb < db) by (nonlinear_arith)
                            requires
                                kb == k / (BLOCK_SZ as int),
                                0 <= k,
                                (k as int) < v.size,
                                db == (v.size + BLOCK_SZ - 1) / (BLOCK_SZ as int),
                        ;
                        assert(block_id_of(v, view0, kb) != block_id_of(
                            v,
                            view0,
                            block as int,
                        ));
                        assert(block_id_of(v, viewd, kb) == block_id_of(v, viewc, kb));
                        assert(viewd[block_id_of(v, viewc, kb) as int] == viewc[block_id_of(
                            v,
                            viewc,
                            kb,
                        ) as int]);
                        assert(file_byte(v, viewd, k) == file_byte(v, viewc, k));
                    }
                }
                // bytes of the file outside the written range are untouched
                assert forall|k: int|
                    0 <= k < v.size && !(offset <= k < end) implies #[trigger] file_byte(
                    v,
                    viewd,
                    k,
                ) == file_byte(v, view0, k) by {
                    let kb = k / (BLOCK_SZ as int);
                    assert(0 <= kb < db) by (nonlinear_arith)
                        requires
                            kb == k / (BLOCK_SZ as int),
                            0 <= k,
                            (k as int) < v.size,
                            db == (v.size + BLOCK_SZ - 1) / (BLOCK_SZ as int),
                    ;
                    if block_id_of(v, viewc, kb) == pid {
                        assert(kb == block as int);
                        lemma_block_decompose(k, block as int);
                        let km = k % (BLOCK_SZ as int);
                        if k < offset {
                            assert(km < off_in_block);
                        } else {
                            assert(k >= end);
                            assert(end <= BLOCK_SZ as int * (block + 1));
                            assert(block_end == end);
                            assert(km >= off_in_block + nn);
                        }
                        assert(viewd[bp][km] == viewc[bp][km]);
                        assert(file_byte(v, viewd, k) == file_byte(v, viewc, k));
                    } else {
                        assert(viewd[block_id_of(v, viewc, kb) as int] == viewc[block_id_of(
                            v,
                            viewc,
                            kb,
                        ) as int]);
                        assert(file_byte(v, viewd, k) == file_byte(v, viewc, k));
                    }
                }
                // frame: the touched block is mapped from the written range
                assert forall|p: int|
                    0 <= p < view0.len() && !maps_range_to(v, view0, first, last, p) implies
                    viewd[p] == view0[p] by {
                    if p == bp {
                        assert(first <= block as int <= last);
                        assert(block_id_of(v, view0, block as int) == pid);
                        assert(maps_range_to(v, view0, first, last, p));
                    } else {
                        assert(viewd[p] == viewc[p]);
                    }
                }
            }
            write_size += nn;
            start = block_end;
        }
        write_size
    }

    /// Grow the file to `new_size` bytes, wiring `new_blocks` — freshly
    /// allocated, pairwise distinct physical blocks, exactly as many as
    /// [`DiskInode::blocks_num_needed`] asks for — into the index: each new
    /// logical block in order, with each index block taken from the same
    /// supply just before the first data block that needs it.  The old
    /// mapping, the old contents, and every block that does not become part
    /// of the index keep their values, and the grown index is again sound
    /// with pairwise-distinct blocks.
    #[verifier::loop_isolation(false)]
    #[verifier::rlimit(100)]
    pub fn increase_size<D: BlockDevice>(
        &mut self,
        new_size: u32,
        new_blocks: Vec<u32>,
        manager: &mut BlockCacheManager,
        block_device: &mut D,
    ) -> (r: ())
        requires
            old(manager).wf(old(block_device).blocks()),
            blocks_wf(old(block_device).blocks()),
            inode_index_wf(
                old(self)@,
                disk_view(old(manager).entries(), old(block_device).blocks()),
            ),
            inode_blocks_distinct(
                old(self)@,
                disk_view(old(manager).entries(), old(block_device).blocks()),
            ),
            old(self)@.size <= new_size <= MAX_FILE_SZ,
            new_blocks@.len() == total_blocks_of(new_size as int) - total_blocks_of(
                old(self)@.size as int,
            ),
            forall|k: int|
                0 <= k < new_blocks@.len() ==> (#[trigger] new_blocks@[k]) < old(
                    block_device,
                ).blocks().len(),
            forall|k: int, l: int|
                0 <= k < l < new_blocks@.len() ==> new_blocks@[k] != new_blocks@[l],
            forall|k: int|
                0 <= k < new_blocks@.len() ==> !owned_ids(
                    old(self)@,
                    disk_view(old(manager).entries(), old(block_device).blocks()),
                    data_blocks_of(old(self)@.size as int),
                ).contains(#[trigger] new_blocks@[k]),
        ensures
            final(manager).wf(final(block_device).blocks()),
            blocks_wf(final(block_device).blocks()),
            final(block_device).blocks().len() == old(block_device).blocks().len(),
            final(self).wf(),
            final(self)@.size == new_size,
            final(self)@.type_ == old(self)@.type_,
            ({
                let v0 = old(self)@;
                let v1 = final(self)@;
                let view0 = disk_view(old(manager).entries(), old(block_device).blocks());
                let view1 = disk_view(final(manager).entries(), final(block_device).blocks());
                let db0 = data_blocks_of(v0.size as int);
                let db1 = data_blocks_of(new_size as int);
                &&& view1.len() == view0.len()
                &&& inode_index_wf(v1, view1)
                &&& inode_blocks_distinct(v1, view1)
                &&& forall|i: int|
                    0 <= i < db0 ==> #[trigger] block_id_of(v1, view1, i) == block_id_of(
                        v0,
                        view0,
                        i,
                    )
                &&& forall|k: int|
                    0 <= k < v0.size ==> #[trigger] file_byte(v1, view1, k) == file_byte(
                        v0,
                        view0,
                        k,
                    )
                &&& forall|p: int|
                    0 <= p < view0.len() && !is_index_block_at(v1, view1, db1, p) ==> view1[p]
                        == view0[p]
                &&& forall|i: int|
                    db0 <= i < db1 ==> new_blocks@.contains(#[trigger] block_id_of(v1, view1, i))
                &&& forall|p: int|
                    is_index_block_at(v1, view1, db1, p) ==> is_index_block_at(v0, view0, db0, p)
                        || new_blocks@.contains(p as u32)
                &&& forall|i: int|
                    db0 <= i < db1 ==> #[trigger] block_id_of(v1, view1, i) == new_blocks@[
                        total_of_blocks(i + 1) - total_of_blocks(db0) - 1]
                &&& (db1 > DIRECT_BOUND && db0 <= DIRECT_BOUND) ==> v1.indirect1 == new_blocks@[
                    total_of_blocks(DIRECT_BOUND as int) - total_of_blocks(db0)]
                &&& (db1 > INDIRECT1_BOUND && db0 <= INDIRECT1_BOUND) ==> v1.indirect2
                    == new_blocks@[total_of_blocks(INDIRECT1_BOUND as int) - total_of_blocks(
                    db0,
                )]
            }),
    {
        let ghost view0 = disk_view(manager.entries(), block_device.blocks());
        let ghost v0 = self@;
        let ghost db0 = data_blocks_of(v0.size as int);
        let ghost db1 = data_blocks_of(new_size as int);
        let ghost devlen = view0.len();
        proof {
            lemma_disk_view_wf(manager.entries(), block_device.blocks());
            lemma_total_blocks_monotonic(v0.size as int, new_size as int);
        }
        let mut current_blocks = self.data_blocks();
        let target_blocks = Self::_data_blocks(new_size);
        self.size = new_size;
        proof {
            let vs = self@;
            assert forall|i: int| 0 <= i < db0 implies #[trigger] block_id_of(vs, view0, i)
                == block_id_of(v0, view0, i) by {}
            assert forall|p: int| is_index_block_at(vs, view0, db0, p) == is_index_block_at(
                v0,
                view0,
                db0,
                p,
            ) by {}
            assert(index_wf_at(vs, view0, db0));
            assert(blocks_distinct_at(vs, view0, db0));
        }
        let mut next: usize = 0;
        while current_blocks < target_blocks
            invariant
                db0 <= current_blocks <= target_blocks,
                target_blocks == db1,
                db1 == data_blocks_of(new_size as int),
                db1 <= INDIRECT2_BOUND,
                self.size == new_size,
                self.direct@.len() == INODE_DIRECT_COUNT,
                self.type_ == v0.type_,
                next == total_of_blocks(current_blocks as int) - total_of_blocks(db0),
                next <= new_blocks@.len(),
                manager.wf(block_device.blocks()),
                blocks_wf(block_device.blocks()),
                block_device.blocks().len() == old(block_device).blocks().len(),
                disk_view(manager.entries(), block_device.blocks()).len() == devlen,
                index_wf_at(
                    self@,
                    disk_view(manager.entries(), block_device.blocks()),
                    current_blocks as int,
                ),
                blocks_distinct_at(
                    self@,
                    disk_view(manager.entries(), block_device.blocks()),
                    current_blocks as int,
                ),
                forall|idx: int|
                    0 <= idx < db0 ==> #[trigger] block_id_of(
                        self@,
                        disk_view(manager.entries(), block_device.blocks()),
                        idx,
                    ) == block_id_of(v0, view0, idx),
                forall|idx: int|
                    db0 <= idx < current_blocks ==> exists|c: int|
                        0 <= c < next && #[trigger] block_id_of(
                            self@,
                            disk_view(manager.entries(), block_device.blocks()),
                            idx,
                        ) == new_blocks@[c],
                forall|idx: int|
                    db0 <= idx < current_blocks ==> #[trigger] block_id_of(
                        self@,
                        disk_view(manager.entries(), block_device.blocks()),
                        idx,
                    ) == new_blocks@[total_of_blocks(idx + 1) - total_of_blocks(db0) - 1],
                (current_blocks > DIRECT_BOUND && db0 <= DIRECT_BOUND) ==> self.indirect1
                    == new_blocks@[total_of_blocks(DIRECT_BOUND as int) - total_of_blocks(db0)],
                (current_blocks > INDIRECT1_BOUND && db0 <= INDIRECT1_BOUND) ==> self.indirect2
                    == new_blocks@[total_of_blocks(INDIRECT1_BOUND as int) - total_of_blocks(
                    db0,
                )],

                (current_blocks <= DIRECT_BOUND || db0 > DIRECT_BOUND) ==> self.indirect1
                    == v0.indirect1,
                (current_blocks > DIRECT_BOUND && db0 <= DIRECT_BOUND) ==> exists|c: int|
                    0 <= c && c + 1 < next && self.indirect1 == new_blocks@[c],
                (current_blocks <= INDIRECT1_BOUND || db0 > INDIRECT1_BOUND) ==> self.indirect2
                    == v0.indirect2,
                (current_blocks > INDIRECT1_BOUND && db0 <= INDIRECT1_BOUND) ==> exists|c: int|
                    0 <= c && c + 1 < next && self.indirect2 == new_blocks@[c],
                forall|a: int|
                    0 <= a < ind2_groups_of(db0) && ind2_groups_of(db0) > 0 ==> u32_at(
                        disk_view(manager.entries(), block_device.blocks())[
                        self.indirect2 as int],
                        a,
                    ) == u32_at(view0[v0.indirect2 as int], a),
                forall|a: int|
                    ind2_groups_of(db0) <= a < ind2_groups_of(current_blocks as int)
                        ==> exists|c: int|
                        0 <= c && c + 1 < next && #[trigger] u32_at(
                            disk_view(manager.entries(), block_device.blocks())[
                            self.indirect2 as int],
                            a,
                        ) == new_blocks@[c],
                forall|p: int|
                    0 <= p < devlen && !is_index_block_at(
                        self@,
                        disk_view(manager.entries(), block_device.blocks()),
                        current_blocks as int,
                        p,
                    ) ==> #[trigger] disk_view(manager.entries(), block_device.blocks())[p]
                        == view0[p],
            decreases target_blocks - current_blocks,
        {
            let i = current_blocks as usize;
            let ghost cnt = i as int;
            let ghost vpre = self@;
            let ghost viewpre = disk_view(manager.entries(), block_device.blocks());
            let ghost next0 = next as int;
            let ghost mut gval: u32 = 0u32;
            proof {
                lemma_total_of_blocks_step(cnt);
                lemma_total_of_blocks_monotonic(cnt + 1, db1);
            }
            if i == DIRECT_BOUND {
                let x = new_blocks[next];
                self.indirect1 = x;
                next += 1;
            }
            if i == INDIRECT1_BOUND {
                let x = new_blocks[next];
                self.indirect2 = x;
                next += 1;
            }
            if i >= INDIRECT1_BOUND && (i - INDIRECT1_BOUND) % INODE_INDIRECT1_COUNT == 0 {
                let a = (i - INDIRECT1_BOUND) / INODE_INDIRECT1_COUNT;
                proof {
                    assert(a as int == ind2_groups_of(cnt) && a < INODE_INDIRECT1_COUNT
                        && ind2_groups_of(cnt + 1) == a + 1) by (nonlinear_arith)
                        requires
                            a as int == (cnt - INDIRECT1_BOUND) / (INODE_INDIRECT1_COUNT as int),
                            (cnt - INDIRECT1_BOUND) % (INODE_INDIRECT1_COUNT as int) == 0,
                            INDIRECT1_BOUND <= cnt < INDIRECT2_BOUND,
                            ind2_groups_of(cnt) == (if cnt > INDIRECT1_BOUND {
                                (cnt - INDIRECT1_BOUND + INODE_INDIRECT1_COUNT - 1) / (
                                INODE_INDIRECT1_COUNT as int)
                            } else {
                                0int
                            }),
                            ind2_groups_of(cnt + 1) == (cnt + 1 - INDIRECT1_BOUND
                                + INODE_INDIRECT1_COUNT - 1) / (INODE_INDIRECT1_COUNT as int),
                    ;
                }
                let x = new_blocks[next];
                write_u32(manager, block_device, self.indirect2 as usize, a, x);
                next += 1;
            }
            if i < DIRECT_BOUND {
                let x = new_blocks[next];
                self.direct.set(i, x);
                next += 1;
            } else if i < INDIRECT1_BOUND {
                let x = new_blocks[next];
                write_u32(manager, block_device, self.indirect1 as usize, i - DIRECT_BOUND, x);
                next += 1;
            } else {
                let a = (i - INDIRECT1_BOUND) / INODE_INDIRECT1_COUNT;
                let b = (i - INDIRECT1_BOUND) % INODE_INDIRECT1_COUNT;
                proof {
                    assert((a as int) < ind2_groups_of(cnt + 1) && a < INODE_INDIRECT1_COUNT
                        && (b == 0 ==> a as int == ind2_groups_of(cnt)) && (b != 0 ==> (
                    a as int) < ind2_groups_of(cnt)) && cnt == INDIRECT1_BOUND + 128 * a + b)
                        by (nonlinear_arith)
                        requires
                            a as int == (cnt - INDIRECT1_BOUND) / (INODE_INDIRECT1_COUNT as int),
                            b as int == (cnt - INDIRECT1_BOUND) % (INODE_INDIRECT1_COUNT as int),
                            INDIRECT1_BOUND <= cnt < INDIRECT2_BOUND,
                            ind2_groups_of(cnt) == (if cnt > INDIRECT1_BOUND {
                                (cnt - INDIRECT1_BOUND + INODE_INDIRECT1_COUNT - 1) / (
                                INODE_INDIRECT1_COUNT as int)
                            } else {
                                0int
                            }),
                            ind2_groups_of(cnt + 1) == (cnt + 1 - INDIRECT1_BOUND
                                + INODE_INDIRECT1_COUNT - 1) / (INODE_INDIRECT1_COUNT as int),
                    ;
                }
                let g = read_u32(manager, block_device, self.indirect2 as usize, a);
                proof {
                    gval = g;
                }
                let x = new_blocks[next];
                write_u32(manager, block_device, g as usize, b, x);
                next += 1;
            }
            proof {
                let vd = self@;
                let viewd = disk_view(manager.entries(), block_device.blocks());
                let g1 = ind2_groups_of(db0);
                let boundary = cnt >= INDIRECT1_BOUND && (cnt - INDIRECT1_BOUND) % (
                INODE_INDIRECT1_COUNT as int) == 0;
                // which blocks were written this iteration, and what they are
                // in the grown index
                assert(cnt < DIRECT_BOUND ==> viewd == viewpre);
                // provenance of the singly- and doubly-indirect blocks
                assert((cnt + 1 > DIRECT_BOUND && db0 <= DIRECT_BOUND) ==> exists|c: int|
                    0 <= c && c + 1 < next && vd.indirect1 == new_blocks@[c]) by {
                    if cnt + 1 > DIRECT_BOUND && db0 <= DIRECT_BOUND {
                        if cnt == DIRECT_BOUND {
                            assert(vd.indirect1 == new_blocks@[next0]);
                            assert(next0 + 1 < next);
                        } else {
                            let c = choose|c: int|
                                0 <= c && c + 1 < next0 && vpre.indirect1 == new_blocks@[c];
                            assert(vd.indirect1 == new_blocks@[c]);
                        }
                    }
                }
                assert((cnt + 1 <= DIRECT_BOUND || db0 > DIRECT_BOUND) ==> vd.indirect1
                    == v0.indirect1);
                assert((cnt + 1 > INDIRECT1_BOUND && db0 <= INDIRECT1_BOUND) ==> exists|c: int|
                    0 <= c && c + 1 < next && vd.indirect2 == new_blocks@[c]) by {
                    if cnt + 1 > INDIRECT1_BOUND && db0 <= INDIRECT1_BOUND {
                        if cnt == INDIRECT1_BOUND {
                            assert(vd.indirect2 == new_blocks@[next0]);
                            assert(next0 + 1 < next);
                        } else {
                            let c = choose|c: int|
                                0 <= c && c + 1 < next0 && vpre.indirect2 == new_blocks@[c];
                            assert(vd.indirect2 == new_blocks@[c]);
                        }
                    }
                }
                assert((cnt + 1 <= INDIRECT1_BOUND || db0 > INDIRECT1_BOUND) ==> vd.indirect2
                    == v0.indirect2);
                if cnt >= INDIRECT1_BOUND {
                    let ad = (cnt - INDIRECT1_BOUND) / (INODE_INDIRECT1_COUNT as int);
                    let bd = (cnt - INDIRECT1_BOUND) % (INODE_INDIRECT1_COUNT as int);
                    assert(boundary ==> gval == new_blocks@[next - 2]);
                    assert(!boundary ==> gval == u32_at(viewpre[vpre.indirect2 as int], ad));
                    // the group block written to is not the doubly-indirect block
                    assert(gval != vd.indirect2) by {
                        if boundary {
                            assert(gval == new_blocks@[next - 2]);
                            if cnt == INDIRECT1_BOUND {
                                assert(vd.indirect2 == new_blocks@[next0]);
                            } else {
                                if db0 > INDIRECT1_BOUND {
                                    assert(vd.indirect2 == v0.indirect2);
                                    assert(owned_ids(v0, view0, db0)[db0 + 1] == v0.indirect2);
                                    assert(owned_ids(v0, view0, db0).contains(v0.indirect2));
                                } else {
                                    let c = choose|c: int|
                                        0 <= c && c + 1 < next0 && vpre.indirect2
                                            == new_blocks@[c];
                                    assert(vd.indirect2 == new_blocks@[c]);
                                }
                            }
                        } else {
                            assert(gval == u32_at(viewpre[vpre.indirect2 as int], ad));
                        }
                    }
                    assert(gval != vd.indirect1) by {
                        if boundary {
                            assert(gval == new_blocks@[next - 2]);
                            if db0 > DIRECT_BOUND {
                                assert(vd.indirect1 == v0.indirect1);
                                assert(owned_ids(v0, view0, db0)[db0] == v0.indirect1);
                                assert(owned_ids(v0, view0, db0).contains(v0.indirect1));
                            } else {
                                let c = choose|c: int|
                                    0 <= c && c + 1 < next && vd.indirect1 == new_blocks@[c];
                                assert(c + 1 < next - 1);
                            }
                        } else {
                            assert(gval == u32_at(viewpre[vpre.indirect2 as int], ad));
                        }
                    }
                }
                // the mapping written earlier kept its values
                assert forall|idx: int| 0 <= idx < cnt implies #[trigger] block_id_of(
                    vd,
                    viewd,
                    idx,
                ) == block_id_of(vpre, viewpre, idx) by {
                    if idx < DIRECT_BOUND {
                        assert(vd.direct[idx] == vpre.direct[idx]);
                    } else if idx < INDIRECT1_BOUND {
                        // read through the singly-indirect block
                        assert(vd.indirect1 == vpre.indirect1);
                        if cnt >= INDIRECT1_BOUND {
                            assert(gval != vd.indirect1);
                            assert(vd.indirect1 != vd.indirect2) by {
                                if cnt == INDIRECT1_BOUND {
                                    assert(vd.indirect2 == new_blocks@[next0]);
                                    if db0 > DIRECT_BOUND {
                                        assert(vd.indirect1 == v0.indirect1);
                                        assert(owned_ids(v0, view0, db0)[db0] == v0.indirect1);
                                        assert(owned_ids(v0, view0, db0).contains(
                                            v0.indirect1,
                                        ));
                                    } else {
                                        let c = choose|c: int|
                                            0 <= c && c + 1 < next0 && vpre.indirect1
                                                == new_blocks@[c];
                                        assert(vd.indirect1 == new_blocks@[c]);
                                    }
                                } else {
                                    assert(vpre.indirect1 != vpre.indirect2);
                                }
                            }
                            assert(viewd[vd.indirect1 as int] == viewpre[vd.indirect1 as int]);
                        } else {
                            // the only write was to this block's later entry
                            assert(u32_at(viewd[vd.indirect1 as int], idx - DIRECT_BOUND)
                                == u32_at(viewpre[vd.indirect1 as int], idx - DIRECT_BOUND));
                        }
                    } else {
                        let ax = (idx - INDIRECT1_BOUND) / (INODE_INDIRECT1_COUNT as int);
                        let bx = (idx - INDIRECT1_BOUND) % (INODE_INDIRECT1_COUNT as int);
                        let ad = (cnt - INDIRECT1_BOUND) / (INODE_INDIRECT1_COUNT as int);
                        let bd = (cnt - INDIRECT1_BOUND) % (INODE_INDIRECT1_COUNT as int);
                        assert(0 <= ax && (ax < ad || (ax == ad && bx < bd)) && ax
                            < ind2_groups_of(cnt) && bx < INODE_INDIRECT1_COUNT && idx
                            == INDIRECT1_BOUND + 128 * ax + bx && (boundary ==> ax < ad))
                            by (nonlinear_arith)
                            requires
                                INDIRECT1_BOUND <= idx < cnt,
                                ax == (idx - INDIRECT1_BOUND) / (INODE_INDIRECT1_COUNT as int),
                                bx == (idx - INDIRECT1_BOUND) % (INODE_INDIRECT1_COUNT as int),
                                ad == (cnt - INDIRECT1_BOUND) / (INODE_INDIRECT1_COUNT as int),
                                bd == (cnt - INDIRECT1_BOUND) % (INODE_INDIRECT1_COUNT as int),
                                boundary == (bd == 0),
                                ind2_groups_of(cnt) == (if cnt > INDIRECT1_BOUND {
                                    (cnt - INDIRECT1_BOUND + INODE_INDIRECT1_COUNT - 1) / (
                                    INODE_INDIRECT1_COUNT as int)
                                } else {
                                    0int
                                }),
                        ;
                        assert(vd.indirect2 == vpre.indirect2);
                        // the group entry for idx is untouched
                        assert(gval != vd.indirect2);
                        assert(u32_at(viewd[vd.indirect2 as int], ax) == u32_at(
                            viewpre[vd.indirect2 as int],
                            ax,
                        ));
                        let meta = u32_at(viewpre[vd.indirect2 as int], ax);
                        // and the group block for idx kept the entry
                        if boundary {
                            // this iteration started a fresh group past ax
                            assert(meta != gval) by {
                                assert(gval == new_blocks@[next - 2]);
                                if ax < g1 {
                                    assert(meta == u32_at(view0[v0.indirect2 as int], ax));
                                    assert(db0 > INDIRECT1_BOUND);
                                    assert(owned_ids(v0, view0, db0)[db0 + 2 + ax] == meta);
                                    assert(owned_ids(v0, view0, db0).contains(meta));
                                } else {
                                    let c = choose|c: int|
                                        0 <= c && c + 1 < next0 && u32_at(
                                            viewpre[vpre.indirect2 as int],
                                            ax,
                                        ) == new_blocks@[c];
                                    assert(meta == new_blocks@[c]);
                                }
                            }
                            assert(viewd[meta as int] == viewpre[meta as int]);
                        } else {
                            if ax == ad {
                                assert(meta == gval);
                                assert(u32_at(viewd[meta as int], bx) == u32_at(
                                    viewpre[meta as int],
                                    bx,
                                ));
                            } else {
                                assert(meta != gval) by {
                                    assert(gval == u32_at(viewpre[vpre.indirect2 as int], ad));
                                }
                                assert(viewd[meta as int] == viewpre[meta as int]);
                            }
                        }
                    }
                }
                // the data block just wired in sits at the last cursor position
                assert(block_id_of(vd, viewd, cnt) == new_blocks@[next - 1]);
                // the group table of the grown structure
                assert forall|a: int| 0 <= a < ind2_groups_of(cnt + 1) implies u32_at(
                    viewd[vd.indirect2 as int],
                    a,
                ) == (if a < ind2_groups_of(cnt) {
                    u32_at(viewpre[vpre.indirect2 as int], a)
                } else {
                    new_blocks@[next - 2]
                }) by {
                    if cnt >= INDIRECT1_BOUND {
                        assert(gval != vd.indirect2);
                    }
                }
                // index blocks of the grown structure are in range
                assert(index_wf_at(vd, viewd, cnt + 1)) by {
                    assert forall|idx: int| 0 <= idx < cnt + 1 implies (#[trigger] block_id_of(
                        vd,
                        viewd,
                        idx,
                    )) < viewd.len() by {
                        if idx < db0 {
                            assert(block_id_of(vd, viewd, idx) == block_id_of(v0, view0, idx));
                        } else if idx < cnt {
                            let c = choose|c: int|
                                0 <= c < next0 && block_id_of(vpre, viewpre, idx)
                                    == new_blocks@[c];
                            assert(block_id_of(vd, viewd, idx) == new_blocks@[c]);
                        } else {
                            assert(block_id_of(vd, viewd, idx) == new_blocks@[next - 1]);
                        }
                    }
                }
                // data blocks pairwise distinct
                assert forall|ii: int, jj: int| 0 <= ii < jj < cnt + 1 implies (
                #[trigger] block_id_of(vd, viewd, ii)) != (#[trigger] block_id_of(
                    vd,
                    viewd,
                    jj,
                )) by {
                    if jj < cnt {
                        assert(block_id_of(vd, viewd, ii) == block_id_of(vpre, viewpre, ii));
                        assert(block_id_of(vd, viewd, jj) == block_id_of(vpre, viewpre, jj));
                    } else {
                        assert(block_id_of(vd, viewd, jj) == new_blocks@[next - 1]);
                        if ii < db0 {
                            assert(block_id_of(vd, viewd, ii) == block_id_of(v0, view0, ii));
                            assert(owned_ids(v0, view0, db0)[ii] == block_id_of(v0, view0, ii));
                            assert(owned_ids(v0, view0, db0).contains(
                                block_id_of(v0, view0, ii),
                            ));
                        } else {
                            let c = choose|c: int|
                                0 <= c < next0 && block_id_of(vpre, viewpre, ii)
                                    == new_blocks@[c];
                            assert(block_id_of(vd, viewd, ii) == new_blocks@[c]);
                            assert(c < next - 1);
                        }
                    }
                }
                // no data block doubles as an index block
                assert forall|idx: int| 0 <= idx < cnt + 1 implies !is_index_block_at(
                    vd,
                    viewd,
                    cnt + 1,
                    (#[trigger] block_id_of(vd, viewd, idx)) as int,
                ) by {
                    let bid = block_id_of(vd, viewd, idx);
                    if idx < db0 {
                        assert(bid == block_id_of(v0, view0, idx));
                        assert(owned_ids(v0, view0, db0)[idx] == bid);
                        assert(owned_ids(v0, view0, db0).contains(bid));
                    } else if idx < cnt {
                        assert(exists|c: int|
                            0 <= c < next0 && block_id_of(vpre, viewpre, idx) == new_blocks@[c]);
                        assert(block_id_of(vd, viewd, idx) == block_id_of(vpre, viewpre, idx));
                    }
                    if is_index_block_at(vd, viewd, cnt + 1, bid as int) {
                        if cnt + 1 > DIRECT_BOUND && bid == vd.indirect1 {
                            if db0 > DIRECT_BOUND {
                                assert(vd.indirect1 == v0.indirect1);
                                assert(owned_ids(v0, view0, db0)[db0] == v0.indirect1);
                                assert(owned_ids(v0, view0, db0).contains(v0.indirect1));
                                assert(!is_index_block_at(v0, view0, db0, bid as int) ==> false);
                                assert(false);
                            } else {
                                let c = choose|c: int|
                                    0 <= c && c + 1 < next && vd.indirect1 == new_blocks@[c];
                                assert(false);
                            }
                        } else if cnt + 1 > INDIRECT1_BOUND && bid == vd.indirect2 {
                            if db0 > INDIRECT1_BOUND {
                                assert(vd.indirect2 == v0.indirect2);
                                assert(owned_ids(v0, view0, db0)[db0 + 1] == v0.indirect2);
                                assert(owned_ids(v0, view0, db0).contains(v0.indirect2));
                                assert(false);
                            } else {
                                let c = choose|c: int|
                                    0 <= c && c + 1 < next && vd.indirect2 == new_blocks@[c];
                                assert(false);
                            }
                        } else {
                            assert(cnt + 1 > INDIRECT1_BOUND);
                            let a = choose|a: int|
                                0 <= a < ind2_groups_of(cnt + 1) && u32_at(
                                    viewd[vd.indirect2 as int],
                                    a,
                                ) == bid;
                            if a < g1 {
                                assert(u32_at(viewd[vd.indirect2 as int], a) == u32_at(
                                    viewpre[vpre.indirect2 as int],
                                    a,
                                ));
                                assert(u32_at(viewpre[vpre.indirect2 as int], a) == u32_at(
                                    view0[v0.indirect2 as int],
                                    a,
                                ));
                                assert(db0 > INDIRECT1_BOUND);
                                assert(owned_ids(v0, view0, db0)[db0 + 2 + a] == u32_at(
                                    view0[v0.indirect2 as int],
                                    a,
                                ));
                                assert(owned_ids(v0, view0, db0).contains(bid));
                                assert(false);
                            } else if a < ind2_groups_of(cnt) {
                                let c = choose|c: int|
                                    0 <= c && c + 1 < next0 && u32_at(
                                        viewpre[vpre.indirect2 as int],
                                        a,
                                    ) == new_blocks@[c];
                                assert(u32_at(viewd[vd.indirect2 as int], a) == new_blocks@[c]);
                                assert(false);
                            } else {
                                assert(u32_at(viewd[vd.indirect2 as int], a) == new_blocks@[next
                                    - 2]);
                                assert(false);
                            }
                        }
                    }
                }
                // blocks outside the grown index are untouched
                assert forall|p: int|
                    0 <= p < devlen && !is_index_block_at(vd, viewd, cnt + 1, p) implies
                    #[trigger] viewd[p] == view0[p] by {
                    if cnt + 1 > DIRECT_BOUND {
                        assert(p != vd.indirect1);
                    }
                    if cnt + 1 > INDIRECT1_BOUND {
                        assert(p != vd.indirect2);
                    }
                    if cnt >= INDIRECT1_BOUND {
                        let ad = (cnt - INDIRECT1_BOUND) / (INODE_INDIRECT1_COUNT as int);
                        assert((ad as int) < ind2_groups_of(cnt + 1));
                        assert(u32_at(viewd[vd.indirect2 as int], ad) == gval);
                        assert(p != gval);
                    }
                    assert(viewd[p] == viewpre[p]);
                    assert(!is_index_block_at(vpre, viewpre, cnt, p)) by {
                        if is_index_block_at(vpre, viewpre, cnt, p) {
                            if cnt > DIRECT_BOUND && p == vpre.indirect1 {
                                assert(vd.indirect1 == vpre.indirect1);
                                assert(is_index_block_at(vd, viewd, cnt + 1, p));
                            } else if cnt > INDIRECT1_BOUND && p == vpre.indirect2 {
                                assert(vd.indirect2 == vpre.indirect2);
                                assert(is_index_block_at(vd, viewd, cnt + 1, p));
                            } else if cnt > INDIRECT1_BOUND {
                                let a = choose|a: int|
                                    0 <= a < ind2_groups_of(cnt) && u32_at(
                                        viewpre[vpre.indirect2 as int],
                                        a,
                                    ) == p;
                                assert(u32_at(viewd[vd.indirect2 as int], a) == p);
                                assert(is_index_block_at(vd, viewd, cnt + 1, p));
                            }
                        }
                    }
                    assert(viewpre[p] == view0[p]);
                }
                // cursor positions of this iteration's consumptions
                assert(next == total_of_blocks(cnt + 1) - total_of_blocks(db0));
                assert forall|idx: int| db0 <= idx < cnt + 1 implies #[trigger] block_id_of(
                    vd,
                    viewd,
                    idx,
                ) == new_blocks@[total_of_blocks(idx + 1) - total_of_blocks(db0) - 1] by {
                    if idx < cnt {
                        assert(block_id_of(vd, viewd, idx) == block_id_of(vpre, viewpre, idx));
                    } else {
                        assert(block_id_of(vd, viewd, idx) == new_blocks@[next - 1]);
                    }
                }
                assert((cnt + 1 > DIRECT_BOUND && db0 <= DIRECT_BOUND) ==> vd.indirect1
                    == new_blocks@[total_of_blocks(DIRECT_BOUND as int) - total_of_blocks(
                    db0,
                )]) by {
                    if cnt == DIRECT_BOUND {
                        assert(vd.indirect1 == new_blocks@[next0]);
                        assert(next0 == total_of_blocks(cnt) - total_of_blocks(db0));
                    }
                }
                assert((cnt + 1 > INDIRECT1_BOUND && db0 <= INDIRECT1_BOUND) ==> vd.indirect2
                    == new_blocks@[total_of_blocks(INDIRECT1_BOUND as int) - total_of_blocks(
                    db0,
                )]) by {
                    if cnt == INDIRECT1_BOUND {
                        assert(vd.indirect2 == new_blocks@[next0]);
                        assert(next0 == total_of_blocks(cnt) - total_of_blocks(db0));
                    }
                }
                // the meta blocks of the grown structure are pairwise distinct
                assert(blocks_distinct_at(vd, viewd, cnt + 1)) by {
                    if cnt + 1 > INDIRECT1_BOUND {
                        assert(vd.indirect1 != vd.indirect2) by {
                            if db0 > INDIRECT1_BOUND {
                                assert(vd.indirect1 == v0.indirect1 && vd.indirect2
                                    == v0.indirect2);
                            } else if db0 > DIRECT_BOUND {
                                assert(vd.indirect1 == v0.indirect1);
                                assert(owned_ids(v0, view0, db0)[db0] == v0.indirect1);
                                assert(owned_ids(v0, view0, db0).contains(v0.indirect1));
                                let c = choose|c: int|
                                    0 <= c && c + 1 < next && vd.indirect2 == new_blocks@[c];
                                assert(vd.indirect2 == new_blocks@[c]);
                            } else {
                                let c1 = choose|c: int|
                                    0 <= c && c + 1 < next && vd.indirect1 == new_blocks@[c];
                                let c2 = choose|c: int|
                                    0 <= c && c + 1 < next && vd.indirect2 == new_blocks@[c];
                                assert(vd.indirect1 == new_blocks@[c1]);
                                assert(vd.indirect2 == new_blocks@[c2]);
                                assert(c1 != c2) by {
                                    if cnt == INDIRECT1_BOUND {
                                        assert(vd.indirect2 == new_blocks@[next0]);
                                        let cp = choose|c: int|
                                            0 <= c && c + 1 < next0 && vpre.indirect1
                                                == new_blocks@[c];
                                        assert(vd.indirect1 == new_blocks@[cp]);
                                        assert(new_blocks@[cp] != new_blocks@[next0]);
                                    } else {
                                        let cp1 = choose|c: int|
                                            0 <= c && c + 1 < next0 && vpre.indirect1
                                                == new_blocks@[c];
                                        let cp2 = choose|c: int|
                                            0 <= c && c + 1 < next0 && vpre.indirect2
                                                == new_blocks@[c];
                                        assert(vd.indirect1 == new_blocks@[cp1]);
                                        assert(vd.indirect2 == new_blocks@[cp2]);
                                        assert(vpre.indirect1 != vpre.indirect2);
                                    }
                                }
                            }
                        }
                        assert forall|a: int| 0 <= a < ind2_groups_of(cnt + 1) implies (
                        #[trigger] u32_at(viewd[vd.indirect2 as int], a)) != vd.indirect1
                            && u32_at(viewd[vd.indirect2 as int], a) != vd.indirect2 by {
                            let m = u32_at(viewd[vd.indirect2 as int], a);
                            if a < ind2_groups_of(cnt) {
                                assert(m == u32_at(viewpre[vpre.indirect2 as int], a));
                                if a < g1 {
                                    assert(m == u32_at(view0[v0.indirect2 as int], a));
                                    assert(db0 > INDIRECT1_BOUND);
                                    assert(vd.indirect1 == v0.indirect1 && vd.indirect2
                                        == v0.indirect2);
                                } else {
                                    let c = choose|c: int|
                                        0 <= c && c + 1 < next0 && u32_at(
                                            viewpre[vpre.indirect2 as int],
                                            a,
                                        ) == new_blocks@[c];
                                    assert(m == new_blocks@[c]);
                                    assert(vpre.indirect1 != m && vpre.indirect2 != m);
                                    assert(vd.indirect1 == vpre.indirect1);
                                    assert(vd.indirect2 == vpre.indirect2);
                                }
                            } else {
                                assert(m == new_blocks@[next - 2]);
                                assert(m != vd.indirect1) by {
                                    if db0 > DIRECT_BOUND {
                                        assert(vd.indirect1 == v0.indirect1);
                                        assert(owned_ids(v0, view0, db0)[db0] == v0.indirect1);
                                        assert(owned_ids(v0, view0, db0).contains(
                                            v0.indirect1,
                                        ));
                                    } else {
                                        let c = choose|c: int|
                                            0 <= c && c + 1 < next && vd.indirect1
                                                == new_blocks@[c];
                                        assert(c + 1 < next - 1 || c + 1 == next - 1);
                                        assert(c < next - 2 || c == next - 2);
                                        assert(c != next - 2) by {
                                            if cnt == INDIRECT1_BOUND {
                                                let cp = choose|c2: int|
                                                    0 <= c2 && c2 + 1 < next0 && vpre.indirect1
                                                        == new_blocks@[c2];
                                                assert(vd.indirect1 == new_blocks@[cp]);
                                                assert(new_blocks@[cp] == new_blocks@[c] ==> cp
                                                    == c);
                                                assert(cp + 1 < next0);
                                            } else {
                                                let cp = choose|c2: int|
                                                    0 <= c2 && c2 + 1 < next0 && vpre.indirect1
                                                        == new_blocks@[c2];
                                                assert(vd.indirect1 == new_blocks@[cp]);
                                                assert(new_blocks@[cp] == new_blocks@[c] ==> cp
                                                    == c);
                                                assert(cp + 1 < next0);
                                            }
                                        }
                                        assert(vd.indirect1 == new_blocks@[c]);
                                    }
                                }
                                assert(m != vd.indirect2) by {
                                    assert(gval == m);
                                    assert(gval != vd.indirect2);
                                }
                            }
                        }
                        assert forall|a: int, b2: int|
                            0 <= a < b2 < ind2_groups_of(cnt + 1) implies (#[trigger] u32_at(
                            viewd[vd.indirect2 as int],
                            a,
                        )) != (#[trigger] u32_at(viewd[vd.indirect2 as int], b2)) by {
                            let ma = u32_at(viewd[vd.indirect2 as int], a);
                            let mb = u32_at(viewd[vd.indirect2 as int], b2);
                            if b2 < ind2_groups_of(cnt) {
                                assert(ma == u32_at(viewpre[vpre.indirect2 as int], a));
                                assert(mb == u32_at(viewpre[vpre.indirect2 as int], b2));
                            } else {
                                assert(mb == new_blocks@[next - 2]);
                                assert(ma == u32_at(viewpre[vpre.indirect2 as int], a));
                                if a < g1 {
                                    assert(ma == u32_at(view0[v0.indirect2 as int], a));
                                    assert(db0 > INDIRECT1_BOUND);
                                    assert(owned_ids(v0, view0, db0)[db0 + 2 + a] == ma);
                                    assert(owned_ids(v0, view0, db0).contains(ma));
                                } else {
                                    let c = choose|c: int|
                                        0 <= c && c + 1 < next0 && u32_at(
                                            viewpre[vpre.indirect2 as int],
                                            a,
                                        ) == new_blocks@[c];
                                    assert(ma == new_blocks@[c]);
                                    assert(c < next - 2);
                                }
                            }
                        }
                    }
                }
            }
            current_blocks += 1;
        }
        proof {
            let v1 = self@;
            let view1 = disk_view(manager.entries(), block_device.blocks());
            assert(data_blocks_of(v1.size as int) == db1);
            assert forall|p: int| is_index_block_at(v1, view1, db1, p) implies is_index_block_at(
                v0,
                view0,
                db0,
                p,
            ) || new_blocks@.contains(p as u32) by {
                if db1 > DIRECT_BOUND && p == v1.indirect1 {
                    if db0 > DIRECT_BOUND {
                        assert(is_index_block_at(v0, view0, db0, p));
                    } else {
                        let c = choose|c: int|
                            0 <= c < next && v1.indirect1 == new_blocks@[c];
                        assert(new_blocks@[c] == p as u32);
                    }
                } else if db1 > INDIRECT1_BOUND && p == v1.indirect2 {
                    if db0 > INDIRECT1_BOUND {
                        assert(is_index_block_at(v0, view0, db0, p));
                    } else {
                        let c = choose|c: int|
                            0 <= c < next && v1.indirect2 == new_blocks@[c];
                        assert(new_blocks@[c] == p as u32);
                    }
                } else if db1 > INDIRECT1_BOUND {
                    let a = choose|a: int|
                        0 <= a < ind2_groups_of(db1) && u32_at(view1[v1.indirect2 as int], a)
                            == p;
                    if a < ind2_groups_of(db0) {
                        assert(u32_at(view0[v0.indirect2 as int], a) == p);
                        assert(db0 > INDIRECT1_BOUND);
                        assert(is_index_block_at(v0, view0, db0, p));
                    } else {
                        let c = choose|c: int|
                            0 <= c < next && u32_at(view1[v1.indirect2 as int], a)
                                == new_blocks@[c];
                        assert(new_blocks@[c] == p as u32);
                    }
                }
            }
            assert forall|i: int| db0 <= i < db1 implies new_blocks@.contains(
                #[trigger] block_id_of(v1, view1, i),
            ) by {
                let c = choose|c: int|
                    0 <= c < next && block_id_of(v1, view1, i) == new_blocks@[c];
                assert(new_blocks@[c] == block_id_of(v1, view1, i));
            }
            assert forall|k: int| 0 <= k < v0.size implies #[trigger] file_byte(v1, view1, k)
                == file_byte(v0, view0, k) by {
                let kb = k / (BLOCK_SZ as int);
                assert(0 <= kb < db0) by (nonlinear_arith)
                    requires
                        kb == k / (BLOCK_SZ as int),
                        0 <= k,
                        (k as int) < v0.size,
                        db0 == (v0.size + BLOCK_SZ - 1) / (BLOCK_SZ as int),
                ;
                let bid = block_id_of(v0, view0, kb);
                assert(block_id_of(v1, view1, kb) == bid);
                assert(owned_ids(v0, view0, db0)[kb] == bid);
                assert(owned_ids(v0, view0, db0).contains(bid));
                assert(!is_index_block_at(v1, view1, db1, bid as int)) by {
                    if is_index_block_at(v1, view1, db1, bid as int) {
                        assert(!is_index_block_at(v0, view0, db0, bid as int));
                    }
                }
                assert(view1[bid as int] == view0[bid as int]);
            }
        }
    }

    /// Return every physical block the inode owns — its data blocks in
    /// logical order, then the singly-indirect block, the doubly-indirect
    /// block, and the indirect blocks beneath it — and reset the inode to
    /// size 0 with an empty index.  The byte store itself is unchanged: the
    /// caller hands the returned ids back to the allocator.
    #[verifier::loop_isolation(false)]
    pub fn clear_size<D: BlockDevice>(
        &mut self,
        manager: &mut BlockCacheManager,
        block_device: &mut D,
    ) -> (r: Vec<u32>)
        requires
            old(manager).wf(old(block_device).blocks()),
            blocks_wf(old(block_device).blocks()),
            inode_index_wf(
                old(self)@,
                disk_view(old(manager).entries(), old(block_device).blocks()),
            ),
            old(self)@.size <= MAX_FILE_SZ,
        ensures
            final(manager).wf(final(block_device).blocks()),
            blocks_wf(final(block_device).blocks()),
            final(block_device).blocks().len() == old(block_device).blocks().len(),
            disk_view(final(manager).entries(), final(block_device).blocks())
                == disk_view(old(manager).entries(), old(block_device).blocks()),
            r@ == owned_ids(
                old(self)@,
                disk_view(old(manager).entries(), old(block_device).blocks()),
                data_blocks_of(old(self)@.size as int),
            ),
            r@.len() == total_blocks_of(old(self)@.size as int),
            final(self).wf(),
            final(self)@.size == 0,
            final(self)@.indirect1 == 0,
            final(self)@.indirect2 == 0,
            forall|i: int| 0 <= i < INODE_DIRECT_COUNT ==> final(self)@.direct[i] == 0u32,
            final(self)@.type_ == old(self)@.type_,
    {
        let ghost view0 = disk_view(manager.entries(), block_device.blocks());
        let ghost v0 = self@;
        let ghost db = data_blocks_of(v0.size as int);
        let data_blocks = self.data_blocks();
        let mut r: Vec<u32> = Vec::new();
        let mut i: u32 = 0;
        while i < data_blocks
            invariant
                i <= data_blocks,
                data_blocks == db,
                *self == *old(self),
                manager.wf(block_device.blocks()),
                blocks_wf(block_device.blocks()),
                block_device.blocks().len() == old(block_device).blocks().len(),
                disk_view(manager.entries(), block_device.blocks()) == view0,
                r@.len() == i,
                forall|k: int| 0 <= k < i ==> r@[k] == block_id_of(v0, view0, k),
            decreases data_blocks - i,
        {
            let pid = self.get_block_id(i, manager, block_device);
            r.push(pid);
            i += 1;
        }
        if data_blocks > DIRECT_BOUND as u32 {
            r.push(self.indirect1);
        }
        if data_blocks > INDIRECT1_BOUND as u32 {
            r.push(self.indirect2);
            let groups = (data_blocks - INDIRECT1_BOUND as u32 + INODE_INDIRECT1_COUNT as u32 - 1)
                / INODE_INDIRECT1_COUNT as u32;
            assert(groups == ind2_groups_of(db));
            assert(groups <= INODE_INDIRECT1_COUNT) by (nonlinear_arith)
                requires
                    groups == (db - INDIRECT1_BOUND + INODE_INDIRECT1_COUNT - 1) / (
                    INODE_INDIRECT1_COUNT as int),
                    INDIRECT1_BOUND < db <= INDIRECT2_BOUND,
            ;
            let mut a: u32 = 0;
            while a < groups
                invariant
                    a <= groups,
                    groups == ind2_groups_of(db),
                    groups <= INODE_INDIRECT1_COUNT,
                    data_blocks == db,
                    db > INDIRECT1_BOUND,
                    *self == *old(self),
                    manager.wf(block_device.blocks()),
                    blocks_wf(block_device.blocks()),
                    block_device.blocks().len() == old(block_device).blocks().len(),
                    disk_view(manager.entries(), block_device.blocks()) == view0,
                    r@.len() == db + 2 + a,
                    forall|k: int| 0 <= k < db ==> r@[k] == block_id_of(v0, view0, k),
                    r@[db as int] == v0.indirect1,
                    r@[db + 1] == v0.indirect2,
                    forall|k: int|
                        0 <= k < a ==> r@[db + 2 + k] == u32_at(view0[v0.indirect2 as int], k),
                decreases groups - a,
            {
                let e = read_u32(manager, block_device, self.indirect2 as usize, a as usize);
                r.push(e);
                a += 1;
            }
        }
        self.size = 0;
        self.indirect1 = 0;
        self.indirect2 = 0;
        let mut t: usize = 0;
        while t < INODE_DIRECT_COUNT
            invariant
                t <= INODE_DIRECT_COUNT,
                self.direct@.len() == INODE_DIRECT_COUNT,
                self.size == 0,
                self.indirect1 == 0,
                self.indirect2 == 0,
                self.type_ == v0.type_,
                forall|k: int| 0 <= k < t ==> self.direct@[k] == 0u32,
            decreases INODE_DIRECT_COUNT - t,
        {
            self.direct.set(t, 0);
            t += 1;
        }
        proof {
            assert(r@ =~= owned_ids(v0, view0, db));
        }
        r
    }
}

/// How the owned-block count changes when one data block is added: one for
/// the data block itself, plus the index blocks that must appear first.
pub proof fn lemma_total_of_blocks_step(c: int)
    requires
        0 <= c < INDIRECT2_BOUND,
    ensures
        total_of_blocks(c + 1) == total_of_blocks(c) + 1 + (if c == DIRECT_BOUND {
            1int
        } else {
            0int
        }) + (if c == INDIRECT1_BOUND {
            2int
        } else if c > INDIRECT1_BOUND && (c - INDIRECT1_BOUND) % (INODE_INDIRECT1_COUNT as int)
            == 0 {
            1int
        } else {
            0int
        }),
{
    if c >= INDIRECT1_BOUND {
        let x = c - INDIRECT1_BOUND;
        let q = x / (INODE_INDIRECT1_COUNT as int);
        let rr = x % (INODE_INDIRECT1_COUNT as int);
        vstd::arithmetic::div_mod::lemma_fundamental_div_mod(x, INODE_INDIRECT1_COUNT as int);
        if c > INDIRECT1_BOUND {
            if rr == 0 {
                lemma_fundamental_div_mod_converse_div(x + 127, 128, q, 127);
            } else {
                lemma_fundamental_div_mod_converse_div(x + 127, 128, q + 1, rr - 1);
            }
        }
        if rr == INODE_INDIRECT1_COUNT - 1 {
            lemma_fundamental_div_mod_converse_div(x + 1 + 127, 128, q + 1, 127);
        } else {
            lemma_fundamental_div_mod_converse_div(x + 1 + 127, 128, q + 1, rr);
        }
    }
}

/// More data blocks never mean fewer owned blocks.
pub proof fn lemma_total_of_blocks_monotonic(c1: int, c2: int)
    requires
        0 <= c1 <= c2,
    ensures
        total_of_blocks(c1) <= total_of_blocks(c2),
        total_of_blocks(c1) + (c2 - c1) <= total_of_blocks(c2),
{
    if c2 > INDIRECT1_BOUND {
        assert(ind2_groups_of(c1) <= ind2_groups_of(c2)) by (nonlinear_arith)
            requires 0 <= c1 <= c2,
        ;
    }
}

/// Growing a file never shrinks the number of owned blocks.
pub proof fn lemma_total_blocks_monotonic(s1: int, s2: int)
    requires
        0 <= s1 <= s2,
    ensures
        total_blocks_of(s1) <= total_blocks_of(s2),
        data_blocks_of(s1) <= data_blocks_of(s2),
{
    assert(data_blocks_of(s1) <= data_blocks_of(s2)) by (nonlinear_arith)
        requires 0 <= s1 <= s2,
    ;
    let d1 = data_blocks_of(s1);
    let d2 = data_blocks_of(s2);
    if d2 > INDIRECT1_BOUND {
        assert(ind2_groups_of(d1) <= ind2_groups_of(d2)) by (nonlinear_arith)
            requires 0 <= d1 <= d2,
        ;
    }
}


/// Relies on `String::push`: appends exactly the given character.
pub assume_specification [ String::push ](s: &mut String, c: char)
    ensures
        final(s)@ == old(s)@.push(c),
;

/// Relies on `String::from_utf8`: it succeeds exactly on valid UTF-8 and
/// returns the string made of those very bytes.
#[verifier::external_body]
fn utf8_to_string(bytes: Vec<u8>) -> (r: Option<String>)
    ensures
        match r {
            Some(s) => vstd::utf8::valid_utf8(bytes@) && vstd::utf8::encode_utf8(s@) == bytes@,
            None => !vstd::utf8::valid_utf8(bytes@),
        },
{
    match String::from_utf8(bytes) {
        Ok(s) => Some(s),
        Err(_) => None,
    }
}

/// A name put into an entry comes back out unchanged: the stored bytes are
/// the UTF-8 encoding of its characters, such bytes are always valid
/// UTF-8, and decoding them yields the original characters again.
pub proof fn lemma_name_round_trip(chars: Seq<char>)
    ensures
        vstd::utf8::valid_utf8(vstd::utf8::encode_utf8(chars)),
        vstd::utf8::decode_utf8(vstd::utf8::encode_utf8(chars)) == chars,
{
    broadcast use vstd::utf8::encode_utf8_valid_utf8, vstd::utf8::encode_utf8_decode_utf8;

}

/// Index of the first zero byte of `b`, or `b.len()` when there is none.
pub open spec fn nul_pos(b: Seq<u8>) -> int
    decreases b.len(),
{
    if b.len() == 0 {
        0
    } else if b[0] == 0u8 {
        0
    } else {
        1 + nul_pos(b.drop_first())
    }
}

/// The visible name stored in a zero-padded name field: the bytes before
/// the first zero.
pub open spec fn name_bytes_of(b: Seq<u8>) -> Seq<u8> {
    b.take(nul_pos(b))
}

/// `nul_pos` is the position of the first zero byte.
pub proof fn lemma_nul_pos(b: Seq<u8>, n: int)
    requires
        0 <= n <= b.len(),
        forall|k: int| 0 <= k < n ==> b[k] != 0u8,
        n < b.len() ==> b[n] == 0u8,
    ensures
        nul_pos(b) == n,
    decreases b.len(),
{
    if n == 0 {
    } else {
        assert(b[0] != 0u8);
        let t = b.drop_first();
        assert forall|k: int| 0 <= k < n - 1 implies t[k] != 0u8 by {
            assert(t[k] == b[k + 1]);
        }
        assert(n - 1 < t.len() ==> t[n - 1] == b[n]);
        lemma_nul_pos(t, n - 1);
    }
}

/// The mathematical content of a [`DirEntry`].
pub struct DirEntryView {
    /// The zero-padded name field, always 28 bytes.
    pub name: Seq<u8>,
    /// The inode number the entry points at.
    pub inode_number: u32,
}

/// The directory entry encoded in the first [`DIR_ENTRY_SZ`] bytes of `b`:
/// 28 name bytes then the inode number.
pub open spec fn dirent_of_bytes(b: Seq<u8>) -> DirEntryView {
    DirEntryView { name: b.take(NAME_LENGTH_LIMIT + 1), inode_number: u32_at(b, 7) }
}

/// One directory entry: a zero-terminated name of at most
/// [`NAME_LENGTH_LIMIT`] visible bytes, and an inode number.
pub struct DirEntry {
    name: Vec<u8>,
    inode_number: u32,
}

impl View for DirEntry {
    type V = DirEntryView;

    closed spec fn view(&self) -> DirEntryView {
        DirEntryView { name: self.name@, inode_number: self.inode_number }
    }
}

impl DirEntry {
    /// The name field always holds exactly 28 bytes.
    pub open spec fn wf(&self) -> bool {
        self@.name.len() == NAME_LENGTH_LIMIT + 1
    }

    /// An all-zero entry.
    pub fn empty() -> (r: DirEntry)
        ensures
            r.wf(),
            r@.inode_number == 0,
            forall|k: int| 0 <= k < NAME_LENGTH_LIMIT + 1 ==> r@.name[k] == 0u8,
    {
        DirEntry { name: vec![0u8; NAME_LENGTH_LIMIT + 1], inode_number: 0 }
    }

    /// An entry for `name` pointing at inode `inode_number`.
    pub fn new(name: &str, inode_number: u32) -> (r: DirEntry)
        requires
            name.spec_bytes().len() <= NAME_LENGTH_LIMIT,
            forall|k: int| 0 <= k < name.spec_bytes().len() ==> name.spec_bytes()[k] != 0u8,
        ensures
            r.wf(),
            r@.inode_number == inode_number,
            name_bytes_of(r@.name) == name.spec_bytes(),
            r@.name =~= name.spec_bytes() + Seq::new(
                (NAME_LENGTH_LIMIT + 1 - name.spec_bytes().len()) as nat,
                |k: int| 0u8,
            ),
    {
        let bytes = name.as_bytes();
        let mut field: Vec<u8> = Vec::new();
        let mut k: usize = 0;
        while k < bytes.len()
            invariant
                k <= bytes@.len(),
                field@.len() == k,
                forall|j: int| 0 <= j < k ==> field@[j] == bytes@[j],
            decreases bytes@.len() - k,
        {
            let b = bytes[k];
            field.push(b);
            k += 1;
        }
        while field.len() < NAME_LENGTH_LIMIT + 1
            invariant
                name.spec_bytes().len() <= field@.len() <= NAME_LENGTH_LIMIT + 1,
                forall|j: int|
                    0 <= j < name.spec_bytes().len() ==> field@[j] == name.spec_bytes()[j],
                forall|j: int|
                    name.spec_bytes().len() <= j < field@.len() ==> field@[j] == 0u8,
            decreases NAME_LENGTH_LIMIT + 1 - field@.len(),
        {
            field.push(0u8);
        }
        let r = DirEntry { name: field, inode_number };
        proof {
            lemma_nul_pos(r@.name, name.spec_bytes().len() as int);
            assert(name_bytes_of(r@.name) =~= name.spec_bytes());
        }
        r
    }

    /// The visible name: the bytes before the first zero, decoded as
    /// UTF-8.  A name written by [`DirEntry::new`] always decodes back to
    /// the string it came from.
    #[verifier::loop_isolation(false)]
    pub fn name(&self) -> (s: String)
        requires
            self.wf(),
            vstd::utf8::valid_utf8(name_bytes_of(self@.name)),
        ensures
            vstd::utf8::encode_utf8(s@) == name_bytes_of(self@.name),
            s@ == vstd::utf8::decode_utf8(name_bytes_of(self@.name)),
    {
        let mut n: usize = 0;
        while n < NAME_LENGTH_LIMIT + 1 && self.name[n] != 0
            invariant
                n <= NAME_LENGTH_LIMIT + 1,
                forall|k: int| 0 <= k < n ==> self.name@[k] != 0u8,
            decreases NAME_LENGTH_LIMIT + 1 - n,
        {
            n += 1;
        }
        proof {
            lemma_nul_pos(self@.name, n as int);
        }
        let mut prefix: Vec<u8> = Vec::new();
        let mut k: usize = 0;
        while k < n
            invariant
                k <= n,
                n <= self.name@.len(),
                prefix@.len() == k,
                forall|j: int| 0 <= j < k ==> prefix@[j] == self.name@[j],
            decreases n - k,
        {
            let b = self.name[k];
            prefix.push(b);
            k += 1;
        }
        proof {
            assert(prefix@ =~= name_bytes_of(self@.name));
        }
        match utf8_to_string(prefix) {
            Some(s) => {
                proof {
                    broadcast use vstd::utf8::encode_utf8_decode_utf8;

                    assert(vstd::utf8::decode_utf8(vstd::utf8::encode_utf8(s@)) == s@);
                }
                s
            },
            None => {
                proof {
                    assert(false);
                }
                String::new()
            },
        }
    }

    /// Whether the entry's visible name equals `name`, byte for byte.
    #[verifier::loop_isolation(false)]
    pub fn name_is(&self, name: &str) -> (r: bool)
        requires
            self.wf(),
        ensures
            r == (name_bytes_of(self@.name) == name.spec_bytes()),
    {
        let bytes = name.as_bytes();
        let mut n: usize = 0;
        while n < NAME_LENGTH_LIMIT + 1 && self.name[n] != 0
            invariant
                n <= NAME_LENGTH_LIMIT + 1,
                forall|k: int| 0 <= k < n ==> self.name@[k] != 0u8,
            decreases NAME_LENGTH_LIMIT + 1 - n,
        {
            n += 1;
        }
        proof {
            lemma_nul_pos(self@.name, n as int);
        }
        if n != bytes.len() {
            proof {
                if name_bytes_of(self@.name) == name.spec_bytes() {
                    assert(name_bytes_of(self@.name).len() == n);
                }
            }
            return false;
        }
        let mut k: usize = 0;
        while k < n
            invariant
                k <= n,
                n <= self.name@.len(),
                n == bytes@.len(),
                bytes@ == name.spec_bytes(),
                forall|j: int| 0 <= j < k ==> self.name@[j] == bytes@[j],
            decreases n - k,
        {
            let a = self.name[k];
            let b = bytes[k];
            if a != b {
                proof {
                    if name_bytes_of(self@.name) == name.spec_bytes() {
                        assert(name_bytes_of(self@.name)[k as int] == self.name@[k as int]);
                    }
                }
                return false;
            }
            k += 1;
        }
        proof {
            assert(name_bytes_of(self@.name) =~= name.spec_bytes());
        }
        true
    }

    /// The inode number the entry points at.
    pub fn inode_number(&self) -> (r: u32)
        ensures
            r == self@.inode_number,
    {
        self.inode_number
    }

    /// Serialize into [`DIR_ENTRY_SZ`] bytes that decode back to `self`.
    #[verifier::loop_isolation(false)]
    pub fn as_bytes(&self) -> (r: Vec<u8>)
        requires
            self.wf(),
        ensures
            r@.len() == DIR_ENTRY_SZ,
            dirent_of_bytes(r@) == self@,
    {
        proof {
            lemma_auto_spec_u32_to_from_le_bytes();
        }
        let mut r: Vec<u8> = Vec::new();
        let mut k: usize = 0;
        while k < NAME_LENGTH_LIMIT + 1
            invariant
                k <= NAME_LENGTH_LIMIT + 1,
                r@.len() == k,
                forall|j: int| 0 <= j < k ==> r@[j] == self.name@[j],
            decreases NAME_LENGTH_LIMIT + 1 - k,
        {
            let b = self.name[k];
            r.push(b);
            k += 1;
        }
        let mut num = u32_to_le_bytes(self.inode_number);
        r.append(&mut num);
        proof {
            assert(r@.take(NAME_LENGTH_LIMIT + 1) =~= self@.name);
            assert(r@.subrange(28, 32) =~= spec_u32_to_le_bytes(self.inode_number));
            assert(dirent_of_bytes(r@) == self@);
        }
        r
    }

    /// Decode an entry from the first [`DIR_ENTRY_SZ`] bytes of `bytes`.
    pub fn decode(bytes: &Vec<u8>) -> (r: DirEntry)
        requires
            bytes@.len() >= DIR_ENTRY_SZ,
        ensures
            r.wf(),
            r@ == dirent_of_bytes(bytes@.subrange(0, DIR_ENTRY_SZ as int)),
    {
        let ghost b = bytes@.subrange(0, DIR_ENTRY_SZ as int);
        let mut name: Vec<u8> = Vec::new();
        let mut k: usize = 0;
        while k < NAME_LENGTH_LIMIT + 1
            invariant
                k <= NAME_LENGTH_LIMIT + 1,
                bytes@.len() >= DIR_ENTRY_SZ,
                name@.len() == k,
                forall|j: int| 0 <= j < k ==> name@[j] == bytes@[j],
            decreases NAME_LENGTH_LIMIT + 1 - k,
        {
            let v = bytes[k];
            name.push(v);
            k += 1;
        }
        let s = bytes.as_slice();
        let inode_number = u32_from_le_bytes(slice_subrange(s, 28, 32));
        let r = DirEntry { name, inode_number };
        proof {
            assert(r@.name =~= dirent_of_bytes(b).name);
            assert(b.subrange(28, 32) =~= bytes@.subrange(28, 32));
            assert(r@ == dirent_of_bytes(b));
        }
        r
    }
}


/// When none of an inode's index blocks change, its whole mapping, its
/// soundness, its distinctness and its owned-block list carry over to the
/// new disk contents.
pub proof fn lemma_index_stable(
    v: DiskInodeView,
    d1: Seq<Seq<u8>>,
    d2: Seq<Seq<u8>>,
    cnt: int,
)
    requires
        0 <= cnt,
        index_wf_at(v, d1, cnt),
        d2.len() == d1.len(),
        cnt > DIRECT_BOUND ==> d2[v.indirect1 as int] == d1[v.indirect1 as int],
        cnt > INDIRECT1_BOUND ==> d2[v.indirect2 as int] == d1[v.indirect2 as int],
        cnt > INDIRECT1_BOUND ==> forall|a: int|
            0 <= a < ind2_groups_of(cnt) ==> d2[(#[trigger] u32_at(d1[v.indirect2 as int], a))
                as int] == d1[u32_at(d1[v.indirect2 as int], a) as int],
    ensures
        forall|i: int|
            0 <= i < cnt ==> #[trigger] block_id_of(v, d2, i) == block_id_of(v, d1, i),
        index_wf_at(v, d2, cnt),
        forall|p: int| is_index_block_at(v, d2, cnt, p) == is_index_block_at(v, d1, cnt, p),
        blocks_distinct_at(v, d1, cnt) ==> blocks_distinct_at(v, d2, cnt),
        owned_ids(v, d2, cnt) == owned_ids(v, d1, cnt),
{
    broadcast use vstd::seq::group_seq_axioms;

    assert forall|i: int| 0 <= i < cnt implies #[trigger] block_id_of(v, d2, i) == block_id_of(
        v,
        d1,
        i,
    ) by {
        if i >= INDIRECT1_BOUND {
            let a = (i - INDIRECT1_BOUND) / (INODE_INDIRECT1_COUNT as int);
            assert(0 <= a < ind2_groups_of(cnt)) by (nonlinear_arith)
                requires
                    a == (i - INDIRECT1_BOUND) / (INODE_INDIRECT1_COUNT as int),
                    INDIRECT1_BOUND <= i < cnt,
                    ind2_groups_of(cnt) == (cnt - INDIRECT1_BOUND + INODE_INDIRECT1_COUNT - 1)
                        / (INODE_INDIRECT1_COUNT as int),
            ;
            assert(u32_at(d2[v.indirect2 as int], a) == u32_at(d1[v.indirect2 as int], a));
        }
    }
    assert forall|p: int| is_index_block_at(v, d2, cnt, p) == is_index_block_at(
        v,
        d1,
        cnt,
        p,
    ) by {
        if cnt > INDIRECT1_BOUND {
            assert(d2[v.indirect2 as int] == d1[v.indirect2 as int]);
        }
    }
    assert(owned_ids(v, d2, cnt).len() == owned_ids(v, d1, cnt).len());
    assert forall|k: int| 0 <= k < owned_ids(v, d1, cnt).len() implies owned_ids(v, d2, cnt)[k]
        == owned_ids(v, d1, cnt)[k] by {
        let i1: int = if cnt > DIRECT_BOUND { 1int } else { 0int };
        let i2: int = if cnt > INDIRECT1_BOUND { 1int } else { 0int };
        if k < cnt {
            assert(owned_ids(v, d1, cnt)[k] == block_id_of(v, d1, k));
            assert(owned_ids(v, d2, cnt)[k] == block_id_of(v, d2, k));
            assert(block_id_of(v, d2, k) == block_id_of(v, d1, k));
        } else if k < cnt + i1 {
            assert(owned_ids(v, d1, cnt)[k] == v.indirect1);
            assert(owned_ids(v, d2, cnt)[k] == v.indirect1);
        } else if k < cnt + i1 + i2 {
            assert(owned_ids(v, d1, cnt)[k] == v.indirect2);
            assert(owned_ids(v, d2, cnt)[k] == v.indirect2);
        } else {
            let a = k - cnt - i1 - i2;
            let d1part1 = Seq::new(cnt as nat, |i: int| block_id_of(v, d1, i));
            let d2part1 = Seq::new(cnt as nat, |i: int| block_id_of(v, d2, i));
            let parta = if cnt > DIRECT_BOUND {
                seq![v.indirect1]
            } else {
                Seq::<u32>::empty()
            };
            let partb = if cnt > INDIRECT1_BOUND {
                seq![v.indirect2]
            } else {
                Seq::<u32>::empty()
            };
            let d1partg = Seq::new(
                ind2_groups_of(cnt) as nat,
                |a2: int| u32_at(d1[v.indirect2 as int], a2),
            );
            let d2partg = Seq::new(
                ind2_groups_of(cnt) as nat,
                |a2: int| u32_at(d2[v.indirect2 as int], a2),
            );
            assert(owned_ids(v, d1, cnt) == d1part1 + parta + partb + d1partg);
            assert(owned_ids(v, d2, cnt) == d2part1 + parta + partb + d2partg);
            assert((d1part1 + parta + partb).len() == cnt + i1 + i2);
            assert((d1part1 + parta + partb + d1partg)[k] == d1partg[a]);
            assert((d2part1 + parta + partb + d2partg)[k] == d2partg[a]);
            assert(d2[v.indirect2 as int] == d1[v.indirect2 as int]);
            assert(d1partg[a] == d2partg[a]);
        }
    }
    assert(owned_ids(v, d2, cnt) =~= owned_ids(v, d1, cnt));
    assert(index_wf_at(v, d2, cnt));
    if blocks_distinct_at(v, d1, cnt) {
        assert(blocks_distinct_at(v, d2, cnt));
    }
}


/// With a sound, distinct index, the owned-block list has no repeats.
pub proof fn lemma_owned_distinct(v: DiskInodeView, disk: Seq<Seq<u8>>, cnt: int)
    requires
        0 <= cnt,
        index_wf_at(v, disk, cnt),
        blocks_distinct_at(v, disk, cnt),
    ensures
        forall|k: int, l: int|
            0 <= k < l < owned_ids(v, disk, cnt).len() ==> (#[trigger] owned_ids(
                v,
                disk,
                cnt,
            )[k]) != (#[trigger] owned_ids(v, disk, cnt)[l]),
{
    broadcast use vstd::seq::group_seq_axioms;

    let owned = owned_ids(v, disk, cnt);
    let i1: int = if cnt > DIRECT_BOUND {
        1int
    } else {
        0int
    };
    let i2: int = if cnt > INDIRECT1_BOUND {
        1int
    } else {
        0int
    };
    let g = ind2_groups_of(cnt);
    assert forall|k: int, l: int| 0 <= k < l < owned.len() implies (#[trigger] owned[k]) != (
    #[trigger] owned[l]) by {
        if k < cnt {
            assert(owned[k] == block_id_of(v, disk, k));
            if l < cnt {
                assert(owned[l] == block_id_of(v, disk, l));
            } else {
                assert(!is_index_block_at(v, disk, cnt, block_id_of(v, disk, k) as int));
                if l < cnt + i1 {
                    assert(owned[l] == v.indirect1);
                } else if l < cnt + i1 + i2 {
                    assert(owned[l] == v.indirect2);
                } else {
                    assert(owned[l] == u32_at(disk[v.indirect2 as int], l - cnt - i1 - i2));
                }
            }
        } else if k < cnt + i1 {
            assert(owned[k] == v.indirect1);
            if l < cnt + i1 + i2 {
                assert(owned[l] == v.indirect2);
            } else {
                assert(owned[l] == u32_at(disk[v.indirect2 as int], l - cnt - i1 - i2));
            }
        } else if k < cnt + i1 + i2 {
            assert(owned[k] == v.indirect2);
            assert(owned[l] == u32_at(disk[v.indirect2 as int], l - cnt - i1 - i2));
        } else {
            assert(owned[k] == u32_at(disk[v.indirect2 as int], k - cnt - i1 - i2));
            assert(owned[l] == u32_at(disk[v.indirect2 as int], l - cnt - i1 - i2));
        }
    }
}


/// How the owned-block list is laid out: the data blocks first, then the
/// two indirect roots, then the group blocks.
pub proof fn lemma_owned_index(v: DiskInodeView, disk: Seq<Seq<u8>>, cnt: int, k: int)
    requires
        0 <= cnt,
        0 <= k < owned_ids(v, disk, cnt).len(),
    ensures
        ({
            let i1: int = if cnt > DIRECT_BOUND {
                1int
            } else {
                0int
            };
            let i2: int = if cnt > INDIRECT1_BOUND {
                1int
            } else {
                0int
            };
            let owned = owned_ids(v, disk, cnt);
            &&& owned.len() == cnt + i1 + i2 + ind2_groups_of(cnt)
            &&& (k < cnt ==> owned[k] == block_id_of(v, disk, k))
            &&& (cnt <= k < cnt + i1 ==> owned[k] == v.indirect1)
            &&& (cnt + i1 <= k < cnt + i1 + i2 ==> owned[k] == v.indirect2)
            &&& (cnt + i1 + i2 <= k ==> owned[k] == u32_at(
                disk[v.indirect2 as int],
                k - cnt - i1 - i2,
            ) && cnt > INDIRECT1_BOUND && 0 <= k - cnt - i1 - i2 < ind2_groups_of(cnt))
        }),
{
    broadcast use vstd::seq::group_seq_axioms;

}

/// Every index block stands somewhere in the owned-block list.
pub proof fn lemma_index_in_owned(v: DiskInodeView, disk: Seq<Seq<u8>>, cnt: int, p: int)
    requires
        0 <= cnt,
        is_index_block_at(v, disk, cnt, p),
    ensures
        owned_ids(v, disk, cnt).contains(p as u32),
        p == p as u32,
{
    broadcast use vstd::seq::group_seq_axioms;

    let owned = owned_ids(v, disk, cnt);
    let i1: int = if cnt > DIRECT_BOUND {
        1int
    } else {
        0int
    };
    let i2: int = if cnt > INDIRECT1_BOUND {
        1int
    } else {
        0int
    };
    if cnt > DIRECT_BOUND && p == v.indirect1 {
        assert(owned[cnt] == v.indirect1);
    } else if cnt > INDIRECT1_BOUND && p == v.indirect2 {
        assert(owned[cnt + 1] == v.indirect2);
    } else {
        let a = choose|a: int|
            0 <= a < ind2_groups_of(cnt) && u32_at(disk[v.indirect2 as int], a) == p;
        assert(owned[cnt + 2 + a] == u32_at(disk[v.indirect2 as int], a));
    }
}


/// Every byte pattern decodes to an inode whose type is a file or a
/// directory: a live inode slot can never present anything else.
pub proof fn lemma_inode_type_total(b: Seq<u8>)
    ensures
        inode_of_bytes(b).type_ == DiskInodeType::File || inode_of_bytes(b).type_
            == DiskInodeType::Directory,
{
}

/// The bytes a file presents over a range, as one sequence.
pub open spec fn read_span(v: DiskInodeView, disk: Seq<Seq<u8>>, off: int, n: int) -> Seq<u8> {
    Seq::new(n as nat, |k: int| file_byte(v, disk, off + k))
}

/// Bytes just written are the bytes read back: a read whose result matches
/// the file contents over a range the write filled returns exactly the
/// written data.
pub proof fn lemma_write_read_round_trip(
    v: DiskInodeView,
    disk: Seq<Seq<u8>>,
    off: int,
    data: Seq<u8>,
    r: Seq<u8>,
)
    requires
        forall|k: int|
            off <= k < off + data.len() ==> #[trigger] file_byte(v, disk, k) == data[k - off],
        r.len() == data.len(),
        forall|k: int| 0 <= k < r.len() ==> #[trigger] r[k] == file_byte(v, disk, off + k),
    ensures
        r == data,
{
    assert(r =~= data);
}

/// Reading a range in two chunks reassembles the single full read: the
/// chunks concatenate to the whole span.
pub proof fn lemma_chunked_read(v: DiskInodeView, disk: Seq<Seq<u8>>, off: int, n1: int, n2: int)
    requires
        0 <= n1,
        0 <= n2,
    ensures
        read_span(v, disk, off, n1) + read_span(v, disk, off + n1, n2) == read_span(
            v,
            disk,
            off,
            n1 + n2,
        ),
{
    broadcast use vstd::seq::group_seq_axioms;

    assert(read_span(v, disk, off, n1) + read_span(v, disk, off + n1, n2) =~= read_span(
        v,
        disk,
        off,
        n1 + n2,
    ));
}

/// An empty file owns nothing: clearing it again frees no block and moves
/// no allocation bit, so a second clear straight after a first is a no-op
/// on the allocation state.
pub proof fn lemma_clear_empty(v: DiskInodeView, disk: Seq<Seq<u8>>)
    requires
        v.size == 0,
    ensures
        total_blocks_of(v.size as int) == 0,
        owned_ids(v, disk, data_blocks_of(v.size as int)) == Seq::<u32>::empty(),
        forall|x: u32| !owned_ids(v, disk, data_blocks_of(v.size as int)).contains(x),
{
    assert(owned_ids(v, disk, 0) =~= Seq::<u32>::empty());
}

} // verus!
