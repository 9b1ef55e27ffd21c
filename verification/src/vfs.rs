//! The VFS facade: directory entries, name lookup, file create, list,
//! read, write, and clear, all through the coordinates of one disk inode.
use vstd::prelude::*;
use crate::BLOCK_SZ;
use crate::block_dev::BlockDevice;
use vstd::string::StringSliceAdditionalSpecFns;
use crate::bitmap::{bitmap_bit, count_set, lemma_count_set_update, lemma_count_set_frame,
    lemma_count_set_bounds};
use crate::layout::{
    DiskInode, DiskInodeView, DiskInodeType, DirEntry, DirEntryView, dirent_of_bytes,
    name_bytes_of, inode_of_bytes, data_blocks_of, total_blocks_of, block_id_of, file_byte,
    inode_index_wf, inode_blocks_distinct, index_wf_at, blocks_distinct_at, is_index_block_at,
    owned_ids, lemma_index_stable, lemma_total_blocks_monotonic, DISK_INODE_SZ, DIR_ENTRY_SZ,
    MAX_FILE_SZ, NAME_LENGTH_LIMIT,
};
use crate::tfs::{TinyFileSystem, fs_view, inode_at};

verus! {

/// The on-disk coordinates of one inode record: its block and the byte
/// offset of the record within that block.
#[derive(Clone, Copy)]
pub struct Inode {
    /// Block holding the record.
    pub block_id: usize,
    /// Byte offset of the record within the block.
    pub offset: usize,
}

/// The record the coordinates point at, as the byte store presents it.
pub open spec fn node_inode<D: BlockDevice>(fs: &TinyFileSystem<D>, node: Inode)
    -> DiskInodeView {
    inode_at(fs_view(fs), node.block_id as int, node.offset as int)
}

/// The coordinates point into the inode area, at a whole record.
pub open spec fn node_pos_wf<D: BlockDevice>(fs: &TinyFileSystem<D>, node: Inode) -> bool {
    &&& fs.inode_area_start_block <= node.block_id < fs.data_bitmap.start()
    &&& node.offset + DISK_INODE_SZ <= BLOCK_SZ
}

/// The file at `node` is sound: its record sits in the inode area, its
/// index structure is in range with pairwise-distinct blocks, and every
/// block it owns lies in the data area with its allocation bit set.
pub open spec fn file_valid<D: BlockDevice>(fs: &TinyFileSystem<D>, node: Inode) -> bool {
    let view = fs_view(fs);
    let ino = node_inode(fs, node);
    let owned = owned_ids(ino, view, data_blocks_of(ino.size as int));
    &&& node_pos_wf(fs, node)
    &&& ino.size <= MAX_FILE_SZ
    &&& inode_index_wf(ino, view)
    &&& inode_blocks_distinct(ino, view)
    &&& forall|k: int|
        0 <= k < owned.len() ==> fs.data_area_start_block <= (#[trigger] owned[k])
            && owned[k] < fs.data_area_start_block + fs.data_limit()
    &&& forall|k: int|
        0 <= k < owned.len() ==> bitmap_bit(
            view,
            fs.data_bitmap.start(),
            (#[trigger] owned[k]) - fs.data_area_start_block,
        )
}

/// The coordinates name the record of a live inode: some set bit of the
/// inode bitmap maps to them.
pub open spec fn node_tracked<D: BlockDevice>(fs: &TinyFileSystem<D>, node: Inode) -> bool {
    exists|b: int|
        0 <= b < fs.inode_bitmap.capacity() && #[trigger] bitmap_bit(fs_view(fs), 1, b)
            && node.block_id == fs.inode_area_start_block + b / 4 && node.offset == (b % 4)
            * DISK_INODE_SZ
}

/// Number of entries in a directory's entry stream.
pub open spec fn dir_file_count(ino: DiskInodeView) -> int {
    ino.size as int / (DIR_ENTRY_SZ as int)
}

/// The `i`-th directory entry, decoded from the directory's byte stream.
pub open spec fn dir_entry_view(ino: DiskInodeView, disk: Seq<Seq<u8>>, i: int) -> DirEntryView {
    dirent_of_bytes(
        Seq::new(DIR_ENTRY_SZ as nat, |j: int| file_byte(ino, disk, i * DIR_ENTRY_SZ + j)),
    )
}

/// Whether the directory lists an entry with visible name `name`.
pub open spec fn dir_has_name(ino: DiskInodeView, disk: Seq<Seq<u8>>, name: Seq<u8>) -> bool {
    exists|i: int|
        0 <= i < dir_file_count(ino) && name_bytes_of(
            (#[trigger] dir_entry_view(ino, disk, i)).name,
        ) == name
}

/// A directory at `node`: a Directory-typed record whose size is a whole
/// number of entries, each naming an inode the bitmap can hold.
pub open spec fn dir_wf<D: BlockDevice>(fs: &TinyFileSystem<D>, node: Inode) -> bool {
    let ino = node_inode(fs, node);
    &&& ino.type_ == DiskInodeType::Directory
    &&& ino.size as int % (DIR_ENTRY_SZ as int) == 0
    &&& forall|i: int|
        0 <= i < dir_file_count(ino) ==> (#[trigger] dir_entry_view(
            ino,
            fs_view(fs),
            i,
        )).inode_number < fs.inode_bitmap.capacity()
}

/// An inode whose index blocks and data blocks all lie at or above `lo`
/// keeps its whole mapping, its contents and its soundness when nothing at
/// or above `lo` changes.
pub proof fn lemma_inode_untouched(
    v: DiskInodeView,
    d1: Seq<Seq<u8>>,
    d2: Seq<Seq<u8>>,
    cnt: int,
    lo: int,
)
    requires
        0 <= cnt,
        index_wf_at(v, d1, cnt),
        d2.len() == d1.len(),
        forall|k: int|
            0 <= k < owned_ids(v, d1, cnt).len() ==> lo <= (#[trigger] owned_ids(v, d1, cnt)[k]),
        forall|p: int| lo <= p < d1.len() ==> #[trigger] d2[p] == d1[p],
    ensures
        forall|i: int|
            0 <= i < cnt ==> #[trigger] block_id_of(v, d2, i) == block_id_of(v, d1, i),
        index_wf_at(v, d2, cnt),
        forall|p: int| is_index_block_at(v, d2, cnt, p) == is_index_block_at(v, d1, cnt, p),
        blocks_distinct_at(v, d1, cnt) ==> blocks_distinct_at(v, d2, cnt),
        owned_ids(v, d2, cnt) == owned_ids(v, d1, cnt),
        forall|kk: int|
            0 <= kk < cnt * (BLOCK_SZ as int) ==> #[trigger] file_byte(v, d2, kk) == file_byte(
                v,
                d1,
                kk,
            ),
{
    let owned = owned_ids(v, d1, cnt);
    let i1: int = if cnt > crate::layout::DIRECT_BOUND {
        1int
    } else {
        0int
    };
    let i2: int = if cnt > crate::layout::INDIRECT1_BOUND {
        1int
    } else {
        0int
    };
    assert(owned.len() == cnt + i1 + i2 + crate::layout::ind2_groups_of(cnt)) by {
        broadcast use vstd::seq::group_seq_axioms;

    }
    if cnt > crate::layout::DIRECT_BOUND {
        assert(owned[cnt] == v.indirect1) by {
            broadcast use vstd::seq::group_seq_axioms;

        }
        assert(d2[v.indirect1 as int] == d1[v.indirect1 as int]);
    }
    if cnt > crate::layout::INDIRECT1_BOUND {
        assert(owned[cnt + 1] == v.indirect2) by {
            broadcast use vstd::seq::group_seq_axioms;

        }
        assert(d2[v.indirect2 as int] == d1[v.indirect2 as int]);
        assert forall|a: int| 0 <= a < crate::layout::ind2_groups_of(cnt) implies d2[(
        #[trigger] crate::layout::u32_at(d1[v.indirect2 as int], a)) as int] == d1[
            crate::layout::u32_at(d1[v.indirect2 as int], a) as int] by {
            assert(owned[cnt + 2 + a] == crate::layout::u32_at(d1[v.indirect2 as int], a)) by {
                broadcast use vstd::seq::group_seq_axioms;

            }
        }
    }
    lemma_index_stable(v, d1, d2, cnt);
    assert forall|kk: int| 0 <= kk < cnt * (BLOCK_SZ as int) implies #[trigger] file_byte(
        v,
        d2,
        kk,
    ) == file_byte(v, d1, kk) by {
        let kb = kk / (BLOCK_SZ as int);
        assert(0 <= kb < cnt) by (nonlinear_arith)
            requires
                kb == kk / (BLOCK_SZ as int),
                0 <= kk < cnt * (BLOCK_SZ as int),
        ;
        assert(block_id_of(v, d2, kb) == block_id_of(v, d1, kb));
        assert(owned[kb] == block_id_of(v, d1, kb)) by {
            broadcast use vstd::seq::group_seq_axioms;

        }
        assert(d2[block_id_of(v, d1, kb) as int] == d1[block_id_of(v, d1, kb) as int]);
    }
}

/// Two views that present the same bytes of a directory present the same
/// entries.
pub proof fn lemma_entry_bytes(
    ino: DiskInodeView,
    d1: Seq<Seq<u8>>,
    d2: Seq<Seq<u8>>,
    i: int,
)
    requires
        0 <= i < dir_file_count(ino),
        ino.size as int % (DIR_ENTRY_SZ as int) == 0,
        forall|kk: int|
            0 <= kk < ino.size ==> #[trigger] file_byte(ino, d2, kk) == file_byte(ino, d1, kk),
    ensures
        dir_entry_view(ino, d2, i) == dir_entry_view(ino, d1, i),
{
    assert forall|j: int| 0 <= j < DIR_ENTRY_SZ implies #[trigger] file_byte(
        ino,
        d2,
        i * DIR_ENTRY_SZ + j,
    ) == file_byte(ino, d1, i * DIR_ENTRY_SZ + j) by {
        assert(0 <= i * DIR_ENTRY_SZ + j < ino.size) by (nonlinear_arith)
            requires
                0 <= i < ino.size as int / (DIR_ENTRY_SZ as int),
                0 <= j < DIR_ENTRY_SZ,
                ino.size as int % (DIR_ENTRY_SZ as int) == 0,
        ;
    }
    assert(Seq::new(DIR_ENTRY_SZ as nat, |j: int| file_byte(ino, d2, i * DIR_ENTRY_SZ + j))
        =~= Seq::new(DIR_ENTRY_SZ as nat, |j: int| file_byte(ino, d1, i * DIR_ENTRY_SZ + j)));
}

/// Clearing a file that a clear has just emptied is a no-op on the whole
/// byte store: with nothing owned, the bits keep their values, the record
/// is rewritten with the very bytes it already holds, and every other
/// block is framed — so the store after the second clear equals the store
/// before it.  The hypotheses are exactly what [`Inode::clear`] ensures,
/// specialized to an empty file.
pub proof fn lemma_clear_idempotent(
    view0: Seq<Seq<u8>>,
    view1: Seq<Seq<u8>>,
    block: int,
    offset: int,
    start: int,
    num_blocks: int,
    ino0: DiskInodeView,
    ino1: DiskInodeView,
)
    requires
        view1.len() == view0.len(),
        crate::block_dev::blocks_wf(view0),
        crate::block_dev::blocks_wf(view1),
        0 <= block < view0.len(),
        0 <= offset,
        offset + DISK_INODE_SZ <= BLOCK_SZ,
        1 <= num_blocks,
        0 <= start,
        start + num_blocks <= view0.len(),
        block < start || block >= start + num_blocks,
        ino0.size == 0,
        ino0.indirect1 == 0,
        ino0.indirect2 == 0,
        forall|k: int| 0 <= k < 28 ==> ino0.direct[k] == 0u32,
        forall|k: int|
            0 <= k < 32 ==> #[trigger] view0[block].subrange(offset + 4 * k, offset + 4 * k + 4)
                == vstd::bytes::spec_u32_to_le_bytes(crate::layout::inode_field(ino0, k)),
        ino1.size == 0,
        ino1.indirect1 == 0,
        ino1.indirect2 == 0,
        ino1.type_ == ino0.type_,
        forall|k: int| 0 <= k < 28 ==> ino1.direct[k] == 0u32,
        forall|k: int|
            0 <= k < 32 ==> #[trigger] view1[block].subrange(offset + 4 * k, offset + 4 * k + 4)
                == vstd::bytes::spec_u32_to_le_bytes(crate::layout::inode_field(ino1, k)),
        forall|j: int|
            0 <= j < BLOCK_SZ && !(offset <= j < offset + DISK_INODE_SZ) ==> view1[block][j]
                == view0[block][j],
        forall|b2: int|
            0 <= b2 < num_blocks * (crate::bitmap::BLOCK_BITS as int) ==> bitmap_bit(
                view1,
                start,
                b2,
            ) == bitmap_bit(view0, start, b2),
        forall|p: int|
            0 <= p < view0.len() && p != block && !(start <= p < start + num_blocks)
                ==> view1[p] == view0[p],
    ensures
        view1 == view0,
{
    assert forall|k: int| 0 <= k < 32 implies crate::layout::inode_field(ino1, k)
        == crate::layout::inode_field(ino0, k) by {}
    assert forall|p: int| 0 <= p < view0.len() implies view1[p] == view0[p] by {
        if p == block {
            assert forall|j: int| 0 <= j < BLOCK_SZ implies view1[block][j] == view0[block][j]
                by {
                if offset <= j < offset + DISK_INODE_SZ {
                    let k = (j - offset) / 4;
                    let m = (j - offset) % 4;
                    assert(0 <= k < 32 && 0 <= m < 4 && j == offset + 4 * k + m);
                    assert(view1[block].subrange(offset + 4 * k, offset + 4 * k + 4)[m]
                        == view1[block][j]);
                    assert(view0[block].subrange(offset + 4 * k, offset + 4 * k + 4)[m]
                        == view0[block][j]);
                    assert(view1[block].subrange(offset + 4 * k, offset + 4 * k + 4)
                        == view0[block].subrange(offset + 4 * k, offset + 4 * k + 4));
                }
            }
            assert(view1[block] =~= view0[block]);
        } else if start <= p < start + num_blocks {
            assert forall|w: int| 0 <= w < BLOCK_SZ implies view1[p][w] == view0[p][w] by {
                let x = view1[p][w];
                let y = view0[p][w];
                assert forall|k: u8| k < 8 implies ((#[trigger] (x >> k)) & 1u8 == 1u8) == ((y
                    >> k) & 1u8 == 1u8) by {
                    crate::bitmap::lemma_bit_compose(p - start, w, k as int);
                    let b2 = (p - start) * (crate::bitmap::BLOCK_BITS as int) + w * 8 + k;
                    assert(0 <= b2 < num_blocks * (crate::bitmap::BLOCK_BITS as int))
                        by (nonlinear_arith)
                        requires
                            b2 == (p - start) * (crate::bitmap::BLOCK_BITS as int) + w * 8 + k,
                            0 <= p - start < num_blocks,
                            0 <= w < BLOCK_SZ,
                            0 <= k < 8,
                            crate::bitmap::BLOCK_BITS == BLOCK_SZ * 8,
                    ;
                    assert(bitmap_bit(view1, start, b2) == bitmap_bit(view0, start, b2));
                    assert((b2 % 8) as u8 == k);
                }
                assert(x == y) by (bit_vector)
                    requires
                        ((x >> 0u8) & 1u8 == 1u8) == ((y >> 0u8) & 1u8 == 1u8),
                        ((x >> 1u8) & 1u8 == 1u8) == ((y >> 1u8) & 1u8 == 1u8),
                        ((x >> 2u8) & 1u8 == 1u8) == ((y >> 2u8) & 1u8 == 1u8),
                        ((x >> 3u8) & 1u8 == 1u8) == ((y >> 3u8) & 1u8 == 1u8),
                        ((x >> 4u8) & 1u8 == 1u8) == ((y >> 4u8) & 1u8 == 1u8),
                        ((x >> 5u8) & 1u8 == 1u8) == ((y >> 5u8) & 1u8 == 1u8),
                        ((x >> 6u8) & 1u8 == 1u8) == ((y >> 6u8) & 1u8 == 1u8),
                        ((x >> 7u8) & 1u8 == 1u8) == ((y >> 7u8) & 1u8 == 1u8),
                ;
            }
            assert(view1[p] =~= view0[p]);
        }
    }
    assert(view1 =~= view0);
}

/// Every physical block reachable from a valid file — its data blocks and
/// its index blocks alike — has its allocation bit set in the data bitmap.
pub proof fn lemma_reachable_blocks_allocated<D: BlockDevice>(
    fs: &TinyFileSystem<D>,
    node: Inode,
    i: int,
)
    requires
        file_valid(fs, node),
        0 <= i < data_blocks_of(node_inode(fs, node).size as int),
    ensures
        bitmap_bit(
            fs_view(fs),
            fs.data_bitmap.start(),
            block_id_of(node_inode(fs, node), fs_view(fs), i) - fs.data_area_start_block,
        ),
{
    let ino = node_inode(fs, node);
    let db = data_blocks_of(ino.size as int);
    crate::layout::lemma_owned_index(ino, fs_view(fs), db, i);
}

impl Inode {
    /// The inode record at the given coordinates.
    pub fn new(block_id: u32, offset: usize) -> (r: Inode)
        ensures
            r.block_id == block_id,
            r.offset == offset,
    {
        Inode { block_id: block_id as usize, offset }
    }

    /// Read this inode's record from the byte store.
    fn read_disk_inode<D: BlockDevice>(&self, fs: &mut TinyFileSystem<D>) -> (r: DiskInode)
        requires
            old(fs).wf(),
            node_pos_wf(old(fs), *self),
        ensures
            final(fs).wf(),
            final(fs).same_layout(old(fs)),
            fs_view(final(fs)) == fs_view(old(fs)),
            r.wf(),
            r@ == node_inode(old(fs), *self),
    {
        proof {
            assert(self.block_id < fs.block_device.blocks().len());
        }
        let bytes = fs.manager.read_bytes(
            &mut fs.block_device,
            self.block_id,
            self.offset,
            DISK_INODE_SZ,
        );
        let r = DiskInode::decode(&bytes);
        proof {
            assert(bytes@.subrange(0, DISK_INODE_SZ as int) =~= bytes@);
        }
        r
    }

    /// Write `ino` as this inode's record.  Only the record's own bytes of
    /// its block change; sibling records in the same block are untouched.
    fn write_disk_inode<D: BlockDevice>(
        &self,
        fs: &mut TinyFileSystem<D>,
        ino: &DiskInode,
    ) -> (r: ())
        requires
            old(fs).wf(),
            node_pos_wf(old(fs), *self),
            ino.wf(),
        ensures
            final(fs).wf(),
            final(fs).same_layout(old(fs)),
            ({
                let view0 = fs_view(old(fs));
                let view1 = fs_view(final(fs));
                &&& view1.len() == view0.len()
                &&& forall|p: int|
                    0 <= p < view0.len() && p != self.block_id ==> view1[p] == view0[p]
                &&& forall|j: int|
                    0 <= j < BLOCK_SZ && !(self.offset <= j < self.offset + DISK_INODE_SZ)
                        ==> view1[self.block_id as int][j] == view0[self.block_id as int][j]
                &&& node_inode(final(fs), *self) == ino@
                &&& forall|k: int|
                    0 <= k < 32 ==> #[trigger] view1[self.block_id as int].subrange(
                        self.offset + 4 * k,
                        self.offset + 4 * k + 4,
                    ) == vstd::bytes::spec_u32_to_le_bytes(crate::layout::inode_field(ino@, k))
            }),
    {
        let enc = ino.encode();
        let ghost view0 = fs_view(fs);
        proof {
            crate::block_cache::lemma_disk_view_wf(fs.manager.entries(), fs.block_device.blocks());
            assert(self.block_id < fs.block_device.blocks().len());
        }
        fs.manager.write_bytes(&mut fs.block_device, self.block_id, self.offset, &enc);
        proof {
            let view1 = fs_view(fs);
            assert(view1[self.block_id as int].subrange(
                self.offset as int,
                self.offset + DISK_INODE_SZ,
            ) =~= enc@);
            assert(node_inode(fs, *self) == ino@);
            assert forall|k: int| 0 <= k < 32 implies #[trigger] view1[self.block_id as int]
                .subrange(self.offset + 4 * k, self.offset + 4 * k + 4)
                == vstd::bytes::spec_u32_to_le_bytes(crate::layout::inode_field(ino@, k)) by {
                assert(view1[self.block_id as int].subrange(
                    self.offset + 4 * k,
                    self.offset + 4 * k + 4,
                ) =~= enc@.subrange(4 * k, 4 * k + 4));
            }
        }
    }

    /// Read up to `buf.len()` bytes at byte `offset` of this file into the
    /// front of `buf`, returning how many were read: everything up to the
    /// end of the file, and 0 once `offset` is at or past it.
    pub fn read_at<D: BlockDevice>(
        &self,
        offset: usize,
        buf: &mut Vec<u8>,
        fs: &mut TinyFileSystem<D>,
    ) -> (r: usize)
        requires
            old(fs).wf(),
            file_valid(old(fs), *self),
            offset + old(buf).len() <= usize::MAX,
        ensures
            final(fs).wf(),
            final(fs).same_layout(old(fs)),
            fs_view(final(fs)) == fs_view(old(fs)),
            file_valid(final(fs), *self),
            final(buf).len() == old(buf).len(),
            ({
                let ino = node_inode(old(fs), *self);
                &&& r == (if offset >= ino.size {
                    0int
                } else if offset + old(buf).len() <= ino.size {
                    old(buf).len() as int
                } else {
                    ino.size - offset
                })
                &&& forall|k: int|
                    0 <= k < r ==> final(buf)@[k] == file_byte(
                        ino,
                        fs_view(old(fs)),
                        offset + k,
                    )
                &&& forall|k: int| r <= k < old(buf).len() ==> final(buf)@[k] == old(buf)@[k]
            }),
    {
        let ino = self.read_disk_inode(fs);
        ino.read_at(offset, buf, &mut fs.manager, &mut fs.block_device)
    }

    /// Drop every byte and every block of this file: its size becomes 0 and
    /// each block it owned is zeroed and handed back to the data bitmap,
    /// whose population count falls by exactly the file's old block count.
    #[verifier::loop_isolation(false)]
    #[verifier::rlimit(30)]
    pub fn clear<D: BlockDevice>(&self, fs: &mut TinyFileSystem<D>) -> (r: ())
        requires
            old(fs).wf(),
            file_valid(old(fs), *self),
        ensures
            final(fs).wf(),
            final(fs).same_layout(old(fs)),
            file_valid(final(fs), *self),
            final(fs).manager.all_clean(),
            final(fs).block_device.blocks() == fs_view(final(fs)),
            ({
                let view0 = fs_view(old(fs));
                let view1 = fs_view(final(fs));
                let ino0 = node_inode(old(fs), *self);
                let owned = owned_ids(ino0, view0, data_blocks_of(ino0.size as int));
                let start = old(fs).data_bitmap.start();
                let das = old(fs).data_area_start_block as int;
                let lim = old(fs).data_limit();
                &&& node_inode(final(fs), *self).size == 0
                &&& node_inode(final(fs), *self).type_ == ino0.type_
                &&& node_inode(final(fs), *self).indirect1 == 0
                &&& node_inode(final(fs), *self).indirect2 == 0
                &&& forall|k: int|
                    0 <= k < 28 ==> node_inode(final(fs), *self).direct[k] == 0u32
                &&& forall|k: int|
                    0 <= k < 32 ==> #[trigger] view1[self.block_id as int].subrange(
                        self.offset + 4 * k,
                        self.offset + 4 * k + 4,
                    ) == vstd::bytes::spec_u32_to_le_bytes(
                        crate::layout::inode_field(node_inode(final(fs), *self), k),
                    )
                &&& forall|j: int|
                    0 <= j < BLOCK_SZ && !(self.offset <= j < self.offset + DISK_INODE_SZ)
                        ==> view1[self.block_id as int][j] == view0[self.block_id as int][j]
                &&& view1.len() == view0.len()
                &&& forall|b2: int|
                    0 <= b2 < old(fs).data_bitmap.capacity() ==> bitmap_bit(view1, start, b2)
                        == (bitmap_bit(view0, start, b2) && !owned.contains((das + b2) as u32))
                &&& count_set(view1, start, lim) == count_set(view0, start, lim)
                    - total_blocks_of(ino0.size as int)
                &&& forall|p: int|
                    0 <= p < view0.len() && p != self.block_id && !(start <= p < start + old(
                        fs,
                    ).data_bitmap.num_blocks()) && !owned.contains(p as u32) ==> view1[p]
                        == view0[p]
            }),
    {
        let ghost view0 = fs_view(fs);
        let ghost ino0 = node_inode(fs, *self);
        let ghost db0 = data_blocks_of(ino0.size as int);
        let ghost owned = owned_ids(ino0, view0, db0);
        let ghost start = fs.data_bitmap.start();
        let ghost das = fs.data_area_start_block as int;
        let ghost lim = fs.data_limit();
        let mut ino = self.read_disk_inode(fs);
        let blocks = ino.clear_size(&mut fs.manager, &mut fs.block_device);
        let ghost view_a = fs_view(fs);
        self.write_disk_inode(fs, &ino);
        let ghost view_b = fs_view(fs);
        proof {
            assert(view_a == view0);
            // the record now shows an empty inode
            assert(node_inode(fs, *self).size == 0);
            assert(blocks@ == owned);
            crate::layout::lemma_owned_distinct(ino0, view0, db0);
            // the record write does not touch the bitmap blocks
            assert forall|b2: int|
                0 <= b2 < fs.data_bitmap.capacity() implies bitmap_bit(view_b, start, b2)
                == bitmap_bit(view0, start, b2) by {
                crate::bitmap::lemma_bit_index(b2);
                crate::tfs::lemma_bit_block_bound(b2, old(fs).data_bitmap.num_blocks());
                assert(view_b[start + (b2 / 8) / (BLOCK_SZ as int)] == view0[start + (b2 / 8) / (
                BLOCK_SZ as int)]);
            }
            lemma_count_set_frame(view0, view_b, start, lim);
            assert(owned.take(0) =~= Seq::<u32>::empty());
        }
        let mut i: usize = 0;
        while i < blocks.len()
            invariant
                i <= blocks@.len(),
                blocks@ == owned,
                owned.len() == total_blocks_of(ino0.size as int),
                fs.wf(),
                fs.same_layout(old(fs)),
                fs.data_bitmap.start() == start,
                fs.data_area_start_block == das,
                fs.data_limit() == lim,
                fs_view(fs).len() == view0.len(),
                fs_view(fs)[self.block_id as int] == view_b[self.block_id as int],
                node_inode(fs, *self).size == 0,
                node_inode(fs, *self).type_ == ino0.type_,
                node_inode(fs, *self).indirect1 == 0,
                node_inode(fs, *self).indirect2 == 0,
                forall|k: int|
                    0 <= k < owned.len() ==> das <= (#[trigger] owned[k]) && owned[k] < das
                        + lim,
                forall|k: int, l: int| 0 <= k < l < owned.len() ==> owned[k] != owned[l],
                forall|b2: int|
                    0 <= b2 < fs.data_bitmap.capacity() ==> bitmap_bit(fs_view(fs), start, b2)
                        == (bitmap_bit(view0, start, b2) && !owned.take(i as int).contains(
                        (das + b2) as u32,
                    )),
                count_set(fs_view(fs), start, lim) == count_set(view0, start, lim) - i,
                forall|p: int|
                    0 <= p < view0.len() && p != self.block_id && !(start <= p < start + fs
                        .data_bitmap.num_blocks()) && !owned.take(i as int).contains(p as u32)
                        ==> #[trigger] fs_view(fs)[p] == view_b[p],
            decreases blocks@.len() - i,
        {
            let bid = blocks[i];
            let ghost view_c = fs_view(fs);
            proof {
                assert(owned[i as int] == bid);
                assert(!owned.take(i as int).contains(bid)) by {
                    if owned.take(i as int).contains(bid) {
                        let k = choose|k: int|
                            0 <= k < i && #[trigger] owned.take(i as int)[k] == bid;
                        assert(owned[k] == owned[i as int]);
                    }
                }
                assert(0 <= bid as int - das < lim);
                assert(bitmap_bit(view0, start, bid as int - das));
                assert((das + (bid as int - das)) as u32 == bid);
                assert(bitmap_bit(view_c, start, bid - das));
            }
            fs.dealloc_data(bid);
            proof {
                let view_d = fs_view(fs);
                lemma_count_set_update(view_c, view_d, start, lim, bid as int - das, false);
                assert forall|b2: int|
                    0 <= b2 < fs.data_bitmap.capacity() implies bitmap_bit(view_d, start, b2)
                    == (bitmap_bit(view0, start, b2) && !owned.take(i as int + 1).contains(
                    (das + b2) as u32,
                )) by {
                    assert(owned.take(i as int + 1) =~= owned.take(i as int).push(bid));
                    if owned.take(i as int + 1).contains((das + b2) as u32) {
                        let k = choose|k: int|
                            0 <= k < i + 1 && #[trigger] owned.take(i as int + 1)[k] == (das
                                + b2) as u32;
                        if k < i {
                            assert(owned.take(i as int).contains((das + b2) as u32)) by {
                                assert(owned.take(i as int)[k] == (das + b2) as u32);
                            }
                        }
                    } else {
                        if b2 == bid as int - das {
                            assert(owned.take(i as int + 1)[i as int] == bid);
                            assert((das + b2) as u32 == bid);
                            assert(owned.take(i as int + 1).contains((das + b2) as u32));
                        }
                        assert(b2 != bid as int - das);
                        if owned.take(i as int).contains((das + b2) as u32) {
                            let k = choose|k: int|
                                0 <= k < i && #[trigger] owned.take(i as int)[k] == (das
                                    + b2) as u32;
                            assert(owned.take(i as int + 1)[k] == (das + b2) as u32);
                        }
                    }
                }
                // the record block is below the data area, so it is untouched
                assert(view_d[self.block_id as int] == view_c[self.block_id as int]);
                assert forall|p: int|
                    0 <= p < view0.len() && p != self.block_id && !(start <= p < start + fs
                        .data_bitmap.num_blocks()) && !owned.take(i as int + 1).contains(
                        p as u32,
                    ) implies #[trigger] fs_view(fs)[p] == view_b[p] by {
                    assert(owned.take(i as int + 1)[i as int] == bid);
                    assert(p != bid);
                    if owned.take(i as int).contains(p as u32) {
                        let k = choose|k: int|
                            0 <= k < i && #[trigger] owned.take(i as int)[k] == p as u32;
                        assert(owned.take(i as int + 1)[k] == p as u32);
                    }
                    crate::bitmap::lemma_bit_index(bid as int - das);
                    crate::tfs::lemma_bit_block_bound(
                        bid as int - das,
                        fs.data_bitmap.num_blocks(),
                    );
                    assert(view_d[p] == view_c[p]);
                }
            }
            i += 1;
        }
        fs.manager.block_cache_sync_all(&mut fs.block_device);
        proof {
            assert(owned.take(owned.len() as int) =~= owned);
            let ino1 = node_inode(fs, *self);
            assert(data_blocks_of(ino1.size as int) == 0);
            assert(inode_index_wf(ino1, fs_view(fs)));
            assert(inode_blocks_distinct(ino1, fs_view(fs)));
            assert(owned_ids(ino1, fs_view(fs), 0) =~= Seq::<u32>::empty());
        }
    }

    /// Write the whole of `buf` at byte `offset` of this file, growing it
    /// first to `max(size, offset + buf.len())` with freshly allocated
    /// blocks, and flush every dirty buffer.  Returns `buf.len()`.  Old
    /// bytes outside the written range keep their values; the data bitmap
    /// gains exactly the blocks the growth consumed.
    #[verifier::loop_isolation(false)]
    #[verifier::rlimit(100)]
    pub fn write_at<D: BlockDevice>(
        &self,
        offset: usize,
        buf: &Vec<u8>,
        fs: &mut TinyFileSystem<D>,
    ) -> (r: usize)
        requires
            old(fs).wf(),
            file_valid(old(fs), *self),
            offset + buf.len() <= MAX_FILE_SZ,
            ({
                let ino = node_inode(old(fs), *self);
                let new_size: int = if offset + buf.len() > ino.size {
                    offset + buf.len()
                } else {
                    ino.size as int
                };
                count_set(
                    fs_view(old(fs)),
                    old(fs).data_bitmap.start(),
                    old(fs).data_limit(),
                ) + total_blocks_of(new_size) - total_blocks_of(ino.size as int) <= old(
                    fs,
                ).data_limit()
            }),
        ensures
            final(fs).wf(),
            final(fs).same_layout(old(fs)),
            file_valid(final(fs), *self),
            final(fs).manager.all_clean(),
            final(fs).block_device.blocks() == fs_view(final(fs)),
            r == buf.len(),
            ({
                let view0 = fs_view(old(fs));
                let view1 = fs_view(final(fs));
                let ino0 = node_inode(old(fs), *self);
                let ino1 = node_inode(final(fs), *self);
                let new_size: int = if offset + buf.len() > ino0.size {
                    offset + buf.len()
                } else {
                    ino0.size as int
                };
                let start = old(fs).data_bitmap.start();
                let lim = old(fs).data_limit();
                &&& ino1.size == new_size
                &&& ino1.type_ == ino0.type_
                &&& forall|k: int|
                    offset <= k < offset + buf.len() ==> #[trigger] file_byte(ino1, view1, k)
                        == buf@[k - offset]
                &&& forall|k: int|
                    0 <= k < ino0.size && !(offset <= k < offset + buf.len())
                        ==> #[trigger] file_byte(ino1, view1, k) == file_byte(ino0, view0, k)
                &&& forall|b2: int|
                    0 <= b2 < lim && bitmap_bit(view0, start, b2) ==> bitmap_bit(
                        view1,
                        start,
                        b2,
                    )
                &&& count_set(view1, start, lim) == count_set(view0, start, lim)
                    + total_blocks_of(new_size) - total_blocks_of(ino0.size as int)
                &&& view1.len() == view0.len()
                &&& forall|p: int|
                    0 <= p < view0.len() && p != self.block_id && !(start <= p < start + old(
                        fs,
                    ).data_bitmap.num_blocks()) && !owned_ids(
                        ino1,
                        view1,
                        data_blocks_of(new_size),
                    ).contains(p as u32) ==> view1[p] == view0[p]
                &&& forall|j: int|
                    0 <= j < BLOCK_SZ && !(self.offset <= j < self.offset + DISK_INODE_SZ)
                        ==> view1[self.block_id as int][j] == view0[self.block_id as int][j]
            }),
    {
        let ghost view0 = fs_view(fs);
        let ghost ino0v = node_inode(fs, *self);
        let ghost db0 = data_blocks_of(ino0v.size as int);
        let ghost owned0 = owned_ids(ino0v, view0, db0);
        let ghost start = fs.data_bitmap.start();
        let ghost das = fs.data_area_start_block as int;
        let ghost lim = fs.data_limit();
        let ghost dbb = fs.data_bitmap.num_blocks();
        let mut ino = self.read_disk_inode(fs);
        let target = (offset + buf.len()) as u32;
        let new_size = if target > ino.size {
            target
        } else {
            ino.size
        };
        let ghost db1 = data_blocks_of(new_size as int);
        let needed = ino.blocks_num_needed(new_size);
        proof {
            lemma_total_blocks_monotonic(ino0v.size as int, new_size as int);
            crate::layout::lemma_owned_distinct(ino0v, view0, db0);
        }
        let mut fresh: Vec<u32> = Vec::new();
        let mut j: u32 = 0;
        while j < needed
            invariant
                j <= needed,
                fresh@.len() == j,
                fs.wf(),
                fs.same_layout(old(fs)),
                fs_view(fs).len() == view0.len(),
                forall|k: int|
                    0 <= k < j ==> das <= (#[trigger] fresh@[k]) && fresh@[k] < das + lim
                        && !bitmap_bit(view0, start, fresh@[k] - das),
                forall|k: int, l: int| 0 <= k < l < j ==> fresh@[k] != fresh@[l],
                forall|b2: int|
                    0 <= b2 < lim ==> bitmap_bit(fs_view(fs), start, b2) == (bitmap_bit(
                        view0,
                        start,
                        b2,
                    ) || exists|k: int| 0 <= k < j && (#[trigger] fresh@[k]) - das == b2),
                count_set(fs_view(fs), start, lim) == count_set(view0, start, lim) + j,
                forall|p: int|
                    0 <= p < view0.len() && !(start <= p < start + dbb) ==> #[trigger] fs_view(
                        fs,
                    )[p] == view0[p],
            decreases needed - j,
        {
            let ghost view_c = fs_view(fs);
            proof {
                lemma_count_set_bounds(view_c, start, lim);
                if count_set(view_c, start, lim) >= lim {
                    assert(false);
                }
            }
            let nb = fs.alloc_data();
            proof {
                let view_d = fs_view(fs);
                let b = nb as int - das;
                lemma_count_set_update(view_c, view_d, start, lim, b, true);
                assert(!bitmap_bit(view0, start, b)) by {
                    assert(!bitmap_bit(view_c, start, b));
                }
                assert forall|b2: int| 0 <= b2 < lim implies bitmap_bit(view_d, start, b2) == (
                bitmap_bit(view0, start, b2) || exists|k: int|
                    0 <= k < j + 1 && (#[trigger] fresh@.push(nb)[k]) - das == b2) by {
                    if b2 == b {
                        assert(fresh@.push(nb)[j as int] == nb);
                    } else {
                        if exists|k: int| 0 <= k < j && (#[trigger] fresh@[k]) - das == b2 {
                            let k = choose|k: int|
                                0 <= k < j && (#[trigger] fresh@[k]) - das == b2;
                            assert(fresh@.push(nb)[k] == fresh@[k]);
                        }
                        if exists|k: int|
                            0 <= k < j + 1 && (#[trigger] fresh@.push(nb)[k]) - das == b2 {
                            let k = choose|k: int|
                                0 <= k < j + 1 && (#[trigger] fresh@.push(nb)[k]) - das == b2;
                            assert(k < j);
                            assert(fresh@[k] == fresh@.push(nb)[k]);
                        }
                    }
                }
                assert forall|k: int| 0 <= k < j + 1 implies das <= (
                #[trigger] fresh@.push(nb)[k]) && fresh@.push(nb)[k] < das + lim && !bitmap_bit(
                    view0,
                    start,
                    fresh@.push(nb)[k] - das,
                ) by {
                    if k < j {
                        assert(fresh@.push(nb)[k] == fresh@[k]);
                    } else {
                        assert(fresh@.push(nb)[k] == nb);
                    }
                }
                assert forall|k: int, l: int| 0 <= k < l < j + 1 implies fresh@.push(nb)[k]
                    != fresh@.push(nb)[l] by {
                    if l < j {
                        assert(fresh@.push(nb)[k] == fresh@[k]);
                        assert(fresh@.push(nb)[l] == fresh@[l]);
                    } else {
                        assert(fresh@.push(nb)[l] == nb);
                        assert(fresh@.push(nb)[k] == fresh@[k]);
                        assert(!bitmap_bit(view_c, start, nb as int - das));
                        assert(bitmap_bit(view_c, start, fresh@[k] - das)) by {
                            assert(bitmap_bit(view_d, start, fresh@[k] - das));
                        }
                    }
                }
                crate::bitmap::lemma_bit_index(b);
                crate::tfs::lemma_bit_block_bound(b, dbb);
            }
            fresh.push(nb);
            j += 1;
        }
        let ghost view_allocs = fs_view(fs);
        proof {
            // nothing at or above the data area changed, so the file and
            // its index carried over unchanged
            lemma_inode_untouched(ino0v, view0, view_allocs, db0, das);
            assert(node_inode(fs, *self) == ino0v) by {
                assert(fs_view(fs)[self.block_id as int] == view0[self.block_id as int]);
            }
            assert(owned_ids(ino0v, view_allocs, db0) == owned0);
            // the fresh blocks are not owned by the file
            assert forall|k: int| 0 <= k < fresh@.len() implies !owned0.contains(
                #[trigger] fresh@[k],
            ) by {
                if owned0.contains(fresh@[k]) {
                    let m = choose|m: int| 0 <= m < owned0.len() && owned0[m] == fresh@[k];
                    assert(bitmap_bit(view0, start, owned0[m] - das));
                }
            }
        }
        ino.increase_size(new_size, fresh, &mut fs.manager, &mut fs.block_device);
        let ghost view_grown = fs_view(fs);
        let ghost inogv = ino@;
        self.write_disk_inode(fs, &ino);
        let ghost view_rec = fs_view(fs);
        proof {
            // the record write touches only the record's block, below the
            // data area
            assert forall|p: int| das <= p < view0.len() implies #[trigger] view_rec[p]
                == view_grown[p] by {
                assert(p != self.block_id);
            }
            // every block the grown file owns lies in the data area
            assert forall|k: int|
                0 <= k < owned_ids(inogv, view_grown, db1).len() implies das <= (
            #[trigger] owned_ids(inogv, view_grown, db1)[k]) && owned_ids(
                inogv,
                view_grown,
                db1,
            )[k] < das + lim by {
                crate::layout::lemma_owned_index(inogv, view_grown, db1, k);
                let x = owned_ids(inogv, view_grown, db1)[k];
                if k < db0 {
                    assert(block_id_of(inogv, view_grown, k) == block_id_of(
                        ino0v,
                        view_allocs,
                        k,
                    ));
                    assert(owned0[k] == block_id_of(ino0v, view0, k)) by {
                        crate::layout::lemma_owned_index(ino0v, view0, db0, k);
                    }
                } else if k < db1 {
                    assert(fresh@.contains(block_id_of(inogv, view_grown, k)));
                    let m = choose|m: int|
                        0 <= m < fresh@.len() && fresh@[m] == block_id_of(inogv, view_grown, k);
                } else {
                    // an index block: either inherited or freshly allocated
                    assert(crate::layout::is_index_block_at(inogv, view_grown, db1, x as int));
                    if crate::layout::is_index_block_at(ino0v, view_allocs, db0, x as int) {
                        crate::layout::lemma_index_in_owned(ino0v, view_allocs, db0, x as int);
                        let m = choose|m: int|
                            0 <= m < owned0.len() && #[trigger] owned0[m] == x;
                    } else {
                        assert(fresh@.contains(x));
                        let m = choose|m: int| 0 <= m < fresh@.len() && fresh@[m] == x;
                    }
                }
            }
            lemma_inode_untouched(inogv, view_grown, view_rec, db1, das);
            assert(node_inode(fs, *self) == inogv);
        }
        let written = ino.write_at(offset, buf, &mut fs.manager, &mut fs.block_device);
        let ghost view_written = fs_view(fs);
        fs.manager.block_cache_sync_all(&mut fs.block_device);
        proof {
            assert(fs_view(fs) == view_written);
            let view1 = view_written;
            let end: int = offset + buf@.len();
            // the record block is not one of the written data blocks
            assert(!crate::layout::maps_range_to(
                inogv,
                view_rec,
                offset as int / (BLOCK_SZ as int),
                (end - 1) / (BLOCK_SZ as int),
                self.block_id as int,
            )) by {
                if crate::layout::maps_range_to(
                    inogv,
                    view_rec,
                    offset as int / (BLOCK_SZ as int),
                    (end - 1) / (BLOCK_SZ as int),
                    self.block_id as int,
                ) {
                    let i = choose|i: int|
                        offset as int / (BLOCK_SZ as int) <= i <= (end - 1) / (BLOCK_SZ as int)
                            && #[trigger] block_id_of(inogv, view_rec, i)
                            == self.block_id as int;
                    assert(crate::layout::index_wf_at(inogv, view_rec, db1));
                    assert(0 <= i < db1) by (nonlinear_arith)
                        requires
                            offset as int / (BLOCK_SZ as int) <= i <= (end - 1) / (
                            BLOCK_SZ as int),
                            0 <= offset,
                            end <= db1 * (BLOCK_SZ as int),
                            db1 == (new_size + BLOCK_SZ - 1) / (BLOCK_SZ as int),
                            end <= new_size,
                    ;
                    assert(owned_ids(inogv, view_rec, db1)[i] == block_id_of(
                        inogv,
                        view_rec,
                        i,
                    )) by {
                        crate::layout::lemma_owned_index(inogv, view_rec, db1, i);
                    }
                }
            }
            assert(node_inode(fs, *self) == inogv);
            // the data bitmap is untouched by the growth, the record write
            // and the data writes
            assert forall|b2: int| 0 <= b2 < lim implies bitmap_bit(view1, start, b2)
                == bitmap_bit(view_allocs, start, b2) by {
                crate::bitmap::lemma_bit_index(b2);
                crate::tfs::lemma_bit_block_bound(b2, dbb);
                let pb = start + (b2 / 8) / (BLOCK_SZ as int);
                assert(pb < das);
                assert(view_grown[pb] == view_allocs[pb]) by {
                    if crate::layout::is_index_block_at(inogv, view_grown, db1, pb) {
                        crate::layout::lemma_index_in_owned(inogv, view_grown, db1, pb);
                        let m = choose|m: int|
                            0 <= m < owned_ids(inogv, view_grown, db1).len()
                                && #[trigger] owned_ids(inogv, view_grown, db1)[m] == pb;
                    }
                }
                assert(view_rec[pb] == view_grown[pb]);
                assert(view1[pb] == view_rec[pb]) by {
                    if crate::layout::maps_range_to(
                        inogv,
                        view_rec,
                        offset as int / (BLOCK_SZ as int),
                        (end - 1) / (BLOCK_SZ as int),
                        pb,
                    ) {
                        let i = choose|i: int|
                            offset as int / (BLOCK_SZ as int) <= i <= (end - 1) / (
                            BLOCK_SZ as int) && #[trigger] block_id_of(inogv, view_rec, i)
                                == pb;
                        assert(0 <= i < db1) by (nonlinear_arith)
                            requires
                                offset as int / (BLOCK_SZ as int) <= i <= (end - 1) / (
                                BLOCK_SZ as int),
                                0 <= offset,
                                end <= db1 * (BLOCK_SZ as int),
                                db1 == (new_size + BLOCK_SZ - 1) / (BLOCK_SZ as int),
                                end <= new_size,
                        ;
                        assert(owned_ids(inogv, view_rec, db1)[i] == block_id_of(
                            inogv,
                            view_rec,
                            i,
                        )) by {
                            crate::layout::lemma_owned_index(inogv, view_rec, db1, i);
                        }
                        assert(owned_ids(inogv, view_rec, db1) == owned_ids(
                            inogv,
                            view_grown,
                            db1,
                        ));
                    }
                }
            }
            lemma_count_set_frame(view_allocs, view1, start, lim);
            // size arithmetic for the byte ranges
            assert(ino0v.size <= db0 * (BLOCK_SZ as int) && new_size <= db1 * (BLOCK_SZ as int))
                by (nonlinear_arith)
                requires
                    db0 == (ino0v.size + BLOCK_SZ - 1) / (BLOCK_SZ as int),
                    db1 == (new_size + BLOCK_SZ - 1) / (BLOCK_SZ as int),
                    0 <= ino0v.size,
                    0 <= new_size,
            ;
            // the owned list is the same at every stage past the growth
            assert(owned_ids(inogv, view_rec, db1) == owned_ids(inogv, view_grown, db1));
            assert forall|p2: int| das <= p2 < view0.len() implies crate::layout::is_index_block_at(
                inogv,
                view_rec,
                db1,
                p2,
            ) == crate::layout::is_index_block_at(inogv, view_grown, db1, p2) by {}
            lemma_index_stable(inogv, view_rec, view1, db1);
            let owned1 = owned_ids(inogv, view1, db1);
            assert(owned1 == owned_ids(inogv, view_grown, db1));
            // bytes of the old file outside the written range are unchanged
            assert forall|k: int|
                0 <= k < ino0v.size && !(offset <= k < end) implies #[trigger] file_byte(
                inogv,
                view1,
                k,
            ) == file_byte(ino0v, view0, k) by {
                assert(file_byte(inogv, view1, k) == file_byte(inogv, view_rec, k));
                assert(file_byte(inogv, view_rec, k) == file_byte(inogv, view_grown, k));
                assert(file_byte(inogv, view_grown, k) == file_byte(ino0v, view_allocs, k));
                assert(file_byte(ino0v, view_allocs, k) == file_byte(ino0v, view0, k));
            }
            // blocks outside the record, the bitmap and the file are untouched
            assert forall|p: int|
                0 <= p < view0.len() && p != self.block_id && !(start <= p < start + dbb)
                    && !owned1.contains(p as u32) implies #[trigger] view1[p] == view0[p] by {
                assert(view_allocs[p] == view0[p]);
                assert(view_grown[p] == view_allocs[p]) by {
                    if crate::layout::is_index_block_at(inogv, view_grown, db1, p) {
                        crate::layout::lemma_index_in_owned(inogv, view_grown, db1, p);
                    }
                }
                assert(view_rec[p] == view_grown[p]);
                assert(view1[p] == view_rec[p]) by {
                    if crate::layout::maps_range_to(
                        inogv,
                        view_rec,
                        offset as int / (BLOCK_SZ as int),
                        (end - 1) / (BLOCK_SZ as int),
                        p,
                    ) {
                        let i = choose|i: int|
                            offset as int / (BLOCK_SZ as int) <= i <= (end - 1) / (
                            BLOCK_SZ as int) && #[trigger] block_id_of(inogv, view_rec, i) == p;
                        assert(0 <= i < db1) by (nonlinear_arith)
                            requires
                                offset as int / (BLOCK_SZ as int) <= i <= (end - 1) / (
                                BLOCK_SZ as int),
                                0 <= offset,
                                end <= db1 * (BLOCK_SZ as int),
                                end <= new_size,
                                new_size <= db1 * (BLOCK_SZ as int),
                        ;
                        assert(owned_ids(inogv, view_rec, db1)[i] == block_id_of(
                            inogv,
                            view_rec,
                            i,
                        )) by {
                            crate::layout::lemma_owned_index(inogv, view_rec, db1, i);
                        }
                        assert(owned1.contains(p as u32));
                    }
                }
            }
            // every owned block's bit is set afterwards
            assert forall|k: int| 0 <= k < owned1.len() implies bitmap_bit(
                view1,
                start,
                (#[trigger] owned1[k]) - das,
            ) by {
                crate::layout::lemma_owned_index(inogv, view_grown, db1, k);
                let x = owned1[k];
                assert(x == owned_ids(inogv, view_grown, db1)[k]);
                if k < db0 {
                    assert(block_id_of(inogv, view_grown, k) == block_id_of(
                        ino0v,
                        view_allocs,
                        k,
                    ));
                    assert(owned0[k] == block_id_of(ino0v, view0, k)) by {
                        crate::layout::lemma_owned_index(ino0v, view0, db0, k);
                    }
                    assert(bitmap_bit(view0, start, owned0[k] - das));
                    assert(bitmap_bit(view_allocs, start, x - das));
                } else if k < db1 {
                    assert(fresh@.contains(block_id_of(inogv, view_grown, k)));
                    let m = choose|m: int|
                        0 <= m < fresh@.len() && fresh@[m] == block_id_of(inogv, view_grown, k);
                    assert(bitmap_bit(view_allocs, start, fresh@[m] - das)) by {
                        assert(fresh@[m] - das == fresh@[m] - das);
                    }
                } else {
                    assert(crate::layout::is_index_block_at(inogv, view_grown, db1, x as int));
                    if crate::layout::is_index_block_at(ino0v, view_allocs, db0, x as int) {
                        crate::layout::lemma_index_in_owned(ino0v, view_allocs, db0, x as int);
                        let m = choose|m: int|
                            0 <= m < owned0.len() && #[trigger] owned0[m] == x;
                        assert(bitmap_bit(view0, start, owned0[m] - das));
                        assert(bitmap_bit(view_allocs, start, x - das));
                    } else {
                        assert(fresh@.contains(x));
                        let m = choose|m: int| 0 <= m < fresh@.len() && fresh@[m] == x;
                        assert(bitmap_bit(view_allocs, start, fresh@[m] - das)) by {
                            assert(fresh@[m] - das == fresh@[m] - das);
                        }
                    }
                }
            }
            assert(file_valid(fs, *self));
            // sibling records in the inode block keep their bytes
            assert forall|j: int|
                0 <= j < BLOCK_SZ && !(self.offset <= j < self.offset + DISK_INODE_SZ) implies
                view1[self.block_id as int][j] == view0[self.block_id as int][j] by {
                assert(view_allocs[self.block_id as int] == view0[self.block_id as int]);
                assert(view_grown[self.block_id as int] == view_allocs[self.block_id as int]) by {
                    if crate::layout::is_index_block_at(
                        inogv,
                        view_grown,
                        db1,
                        self.block_id as int,
                    ) {
                        crate::layout::lemma_index_in_owned(
                            inogv,
                            view_grown,
                            db1,
                            self.block_id as int,
                        );
                    }
                }
                assert(view_rec[self.block_id as int][j] == view_grown[self.block_id as int][j]);
                assert(view1[self.block_id as int] == view_rec[self.block_id as int]);
            }
        }
        written
    }

    /// Scan the directory for `name`, returning the inode number of the
    /// first entry that carries it.
    #[verifier::loop_isolation(false)]
    fn find_inode_id<D: BlockDevice>(&self, name: &str, fs: &mut TinyFileSystem<D>) -> (r:
        Option<u32>)
        requires
            old(fs).wf(),
            file_valid(old(fs), *self),
            dir_wf(old(fs), *self),
        ensures
            final(fs).wf(),
            final(fs).same_layout(old(fs)),
            fs_view(final(fs)) == fs_view(old(fs)),
            ({
                let ino = node_inode(old(fs), *self);
                let view = fs_view(old(fs));
                match r {
                    None => !dir_has_name(ino, view, name.spec_bytes()),
                    Some(num) => exists|i: int|
                        0 <= i < dir_file_count(ino) && name_bytes_of(
                            (#[trigger] dir_entry_view(ino, view, i)).name,
                        ) == name.spec_bytes() && dir_entry_view(ino, view, i).inode_number
                            == num,
                }
            }),
    {
        let ghost view0 = fs_view(fs);
        let ghost inov = node_inode(fs, *self);
        let ino = self.read_disk_inode(fs);
        let file_count = (ino.size as usize) / DIR_ENTRY_SZ;
        proof {
            assert(file_count == dir_file_count(inov));
        }
        let mut i: usize = 0;
        while i < file_count
            invariant
                i <= file_count,
                file_count == dir_file_count(inov),
                ino@ == inov,
                ino.wf(),
                fs.wf(),
                fs.same_layout(old(fs)),
                fs_view(fs) == view0,
                forall|j: int|
                    0 <= j < i ==> name_bytes_of(
                        (#[trigger] dir_entry_view(inov, view0, j)).name,
                    ) != name.spec_bytes(),
            decreases file_count - i,
        {
            let e = self.read_dir_entry(&ino, i, fs);
            if e.name_is(name) {
                return Some(e.inode_number());
            }
            i += 1;
        }
        None
    }

    /// Read the `i`-th directory entry through the file's index.
    #[verifier::loop_isolation(false)]
    fn read_dir_entry<D: BlockDevice>(
        &self,
        ino: &DiskInode,
        i: usize,
        fs: &mut TinyFileSystem<D>,
    ) -> (e: DirEntry)
        requires
            old(fs).wf(),
            file_valid(old(fs), *self),
            ino@ == node_inode(old(fs), *self),
            ino.wf(),
            node_inode(old(fs), *self).size as int % (DIR_ENTRY_SZ as int) == 0,
            0 <= i < dir_file_count(node_inode(old(fs), *self)),
        ensures
            final(fs).wf(),
            final(fs).same_layout(old(fs)),
            fs_view(final(fs)) == fs_view(old(fs)),
            e.wf(),
            e@ == dir_entry_view(node_inode(old(fs), *self), fs_view(old(fs)), i as int),
    {
        let ghost view0 = fs_view(fs);
        let ghost inov = ino@;
        proof {
            assert(i * DIR_ENTRY_SZ + DIR_ENTRY_SZ <= inov.size && i * DIR_ENTRY_SZ
                == i as int * (DIR_ENTRY_SZ as int)) by (nonlinear_arith)
                requires
                    0 <= i < inov.size as int / (DIR_ENTRY_SZ as int),
                    inov.size as int % (DIR_ENTRY_SZ as int) == 0,
                    DIR_ENTRY_SZ == 32,
            ;
        }
        let mut buf: Vec<u8> = vec![0u8; DIR_ENTRY_SZ];
        let n = ino.read_at(i * DIR_ENTRY_SZ, &mut buf, &mut fs.manager, &mut fs.block_device);
        let e = DirEntry::decode(&buf);
        proof {
            assert(n == DIR_ENTRY_SZ);
            assert(buf@.subrange(0, DIR_ENTRY_SZ as int) =~= Seq::new(
                DIR_ENTRY_SZ as nat,
                |j: int| file_byte(inov, view0, i as int * DIR_ENTRY_SZ + j),
            ));
        }
        e
    }

    /// Look `name` up in the directory, returning the coordinates of its
    /// inode when it is listed.
    pub fn find<D: BlockDevice>(&self, name: &str, fs: &mut TinyFileSystem<D>) -> (r: Option<
        Inode>)
        requires
            old(fs).wf(),
            file_valid(old(fs), *self),
            dir_wf(old(fs), *self),
        ensures
            final(fs).wf(),
            final(fs).same_layout(old(fs)),
            fs_view(final(fs)) == fs_view(old(fs)),
            ({
                let ino = node_inode(old(fs), *self);
                let view = fs_view(old(fs));
                match r {
                    None => !dir_has_name(ino, view, name.spec_bytes()),
                    Some(node) => exists|i: int|
                        0 <= i < dir_file_count(ino) && name_bytes_of(
                            (#[trigger] dir_entry_view(ino, view, i)).name,
                        ) == name.spec_bytes() && node.block_id
                            == old(fs).inode_area_start_block + dir_entry_view(
                            ino,
                            view,
                            i,
                        ).inode_number as int / 4 && node.offset == (dir_entry_view(
                            ino,
                            view,
                            i,
                        ).inode_number as int % 4) * DISK_INODE_SZ,
                }
            }),
    {
        match self.find_inode_id(name, fs) {
            Some(num) => {
                let (block_id, offset) = fs.get_disk_inode_pos(num);
                Some(Inode::new(block_id, offset))
            },
            None => None,
        }
    }

    /// The names of every directory entry, in order, each decoded from its
    /// stored UTF-8 bytes.
    #[verifier::loop_isolation(false)]
    pub fn ls<D: BlockDevice>(&self, fs: &mut TinyFileSystem<D>) -> (v: Vec<String>)
        requires
            old(fs).wf(),
            file_valid(old(fs), *self),
            dir_wf(old(fs), *self),
            forall|i: int|
                0 <= i < dir_file_count(node_inode(old(fs), *self))
                    ==> vstd::utf8::valid_utf8(
                    name_bytes_of(
                        (#[trigger] dir_entry_view(
                            node_inode(old(fs), *self),
                            fs_view(old(fs)),
                            i,
                        )).name,
                    ),
                ),
        ensures
            final(fs).wf(),
            final(fs).same_layout(old(fs)),
            fs_view(final(fs)) == fs_view(old(fs)),
            ({
                let ino = node_inode(old(fs), *self);
                let view = fs_view(old(fs));
                &&& v@.len() == dir_file_count(ino)
                &&& forall|i: int|
                    0 <= i < v@.len() ==> (#[trigger] v@[i])@ == vstd::utf8::decode_utf8(
                        name_bytes_of(dir_entry_view(ino, view, i).name),
                    ) && vstd::utf8::encode_utf8(v@[i]@) == name_bytes_of(
                        dir_entry_view(ino, view, i).name,
                    )
            }),
    {
        let ghost view0 = fs_view(fs);
        let ghost inov = node_inode(fs, *self);
        let ino = self.read_disk_inode(fs);
        let file_count = (ino.size as usize) / DIR_ENTRY_SZ;
        let mut v: Vec<String> = Vec::new();
        let mut i: usize = 0;
        while i < file_count
            invariant
                i <= file_count,
                file_count == dir_file_count(inov),
                ino@ == inov,
                ino.wf(),
                fs.wf(),
                fs.same_layout(old(fs)),
                fs_view(fs) == view0,
                v@.len() == i,
                forall|k: int|
                    0 <= k < i ==> (#[trigger] v@[k])@ == vstd::utf8::decode_utf8(
                        name_bytes_of(dir_entry_view(inov, view0, k).name),
                    ) && vstd::utf8::encode_utf8(v@[k]@) == name_bytes_of(
                        dir_entry_view(inov, view0, k).name,
                    ),
            decreases file_count - i,
        {
            let e = self.read_dir_entry(&ino, i, fs);
            let s = e.name();
            v.push(s);
            i += 1;
        }
        v
    }

    /// Create a file named `name` in this directory: pick a free inode,
    /// initialize it as an empty file, and append a directory entry for it.
    /// Returns `None`, changing nothing, when the name is already listed or
    /// every inode is taken.
    #[verifier::loop_isolation(false)]
    #[verifier::rlimit(100)]
    pub fn create<D: BlockDevice>(&self, name: &str, fs: &mut TinyFileSystem<D>) -> (r: Option<
        Inode>)
        requires
            old(fs).wf(),
            file_valid(old(fs), *self),
            dir_wf(old(fs), *self),
            node_tracked(old(fs), *self),
            name.spec_bytes().len() <= NAME_LENGTH_LIMIT,
            forall|k: int| 0 <= k < name.spec_bytes().len() ==> name.spec_bytes()[k] != 0u8,
            node_inode(old(fs), *self).size + DIR_ENTRY_SZ <= MAX_FILE_SZ,
            ({
                let ino = node_inode(old(fs), *self);
                count_set(
                    fs_view(old(fs)),
                    old(fs).data_bitmap.start(),
                    old(fs).data_limit(),
                ) + total_blocks_of(ino.size + DIR_ENTRY_SZ) - total_blocks_of(ino.size as int)
                    <= old(fs).data_limit()
            }),
        ensures
            final(fs).wf(),
            final(fs).same_layout(old(fs)),
            file_valid(final(fs), *self),
            dir_wf(final(fs), *self),
            node_tracked(final(fs), *self),
            ({
                let view0 = fs_view(old(fs));
                let view1 = fs_view(final(fs));
                let ino0 = node_inode(old(fs), *self);
                let ino1 = node_inode(final(fs), *self);
                match r {
                    None => view1 == view0 && (dir_has_name(ino0, view0, name.spec_bytes())
                        || crate::bitmap::all_bits_set(
                        view0,
                        1,
                        old(fs).inode_bitmap.capacity(),
                    )),
                    Some(node) => {
                        &&& !dir_has_name(ino0, view0, name.spec_bytes())
                        &&& file_valid(final(fs), node)
                        &&& node_tracked(final(fs), node)
                        &&& node_inode(final(fs), node).size == 0
                        &&& node_inode(final(fs), node).type_ == DiskInodeType::File
                        &&& ino1.size == ino0.size + DIR_ENTRY_SZ
                        &&& ino1.type_ == ino0.type_
                        &&& forall|i: int|
                            0 <= i < dir_file_count(ino0) ==> #[trigger] dir_entry_view(
                                ino1,
                                view1,
                                i,
                            ) == dir_entry_view(ino0, view0, i)
                        &&& name_bytes_of(
                            dir_entry_view(ino1, view1, dir_file_count(ino0)).name,
                        ) == name.spec_bytes()
                        &&& (dir_entry_view(
                            ino1,
                            view1,
                            dir_file_count(ino0),
                        ).inode_number as int) < old(fs).inode_bitmap.capacity()
                        &&& node.block_id == old(fs).inode_area_start_block + dir_entry_view(
                            ino1,
                            view1,
                            dir_file_count(ino0),
                        ).inode_number as int / 4
                        &&& node.offset == (dir_entry_view(
                            ino1,
                            view1,
                            dir_file_count(ino0),
                        ).inode_number as int % 4) * DISK_INODE_SZ
                        &&& dir_has_name(ino1, view1, name.spec_bytes())
                        &&& !crate::bitmap::all_bits_set(
                            view0,
                            1,
                            old(fs).inode_bitmap.capacity(),
                        )
                        &&& count_set(
                            view1,
                            old(fs).data_bitmap.start(),
                            old(fs).data_limit(),
                        ) == count_set(view0, old(fs).data_bitmap.start(), old(fs).data_limit())
                            + total_blocks_of(ino0.size + DIR_ENTRY_SZ) - total_blocks_of(
                            ino0.size as int,
                        )
                        &&& forall|b2: int|
                            0 <= b2 < old(fs).data_limit() && bitmap_bit(
                                view0,
                                old(fs).data_bitmap.start(),
                                b2,
                            ) ==> bitmap_bit(view1, old(fs).data_bitmap.start(), b2)
                        &&& ({
                            let nb = dir_entry_view(
                                ino1,
                                view1,
                                dir_file_count(ino0),
                            ).inode_number as int;
                            &&& bitmap_bit(view1, 1, nb)
                            &&& !bitmap_bit(view0, 1, nb)
                            &&& forall|b2: int|
                                0 <= b2 < old(fs).inode_bitmap.capacity() && b2 != nb
                                    ==> bitmap_bit(view1, 1, b2) == bitmap_bit(view0, 1, b2)
                        })
                        &&& view1.len() == view0.len()
                        &&& forall|p: int|
                            0 <= p < view0.len() && p != self.block_id && p != node.block_id
                                && !(1 <= p < 1 + old(fs).inode_bitmap.num_blocks()) && !(old(
                                fs,
                            ).data_bitmap.start() <= p < old(fs).data_bitmap.start() + old(
                                fs,
                            ).data_bitmap.num_blocks()) && !owned_ids(
                                ino1,
                                view1,
                                data_blocks_of(ino1.size as int),
                            ).contains(p as u32) ==> view1[p] == view0[p]
                        &&& forall|j: int|
                            0 <= j < BLOCK_SZ && !(self.offset <= j < self.offset
                                + DISK_INODE_SZ) && !(node.block_id == self.block_id
                                && node.offset <= j < node.offset + DISK_INODE_SZ)
                                ==> view1[self.block_id as int][j] == view0[
                                self.block_id as int][j]
                        &&& forall|j: int|
                            0 <= j < BLOCK_SZ && !(node.offset <= j < node.offset
                                + DISK_INODE_SZ) && !(node.block_id == self.block_id
                                && self.offset <= j < self.offset + DISK_INODE_SZ)
                                ==> view1[node.block_id as int][j] == view0[
                                node.block_id as int][j]
                    },
                }
            }),
    {
        let ghost view0 = fs_view(fs);
        let ghost ino0v = node_inode(fs, *self);
        let ghost db0 = data_blocks_of(ino0v.size as int);
        let ghost count0 = dir_file_count(ino0v);
        let ghost start = fs.data_bitmap.start();
        let ghost das = fs.data_area_start_block as int;
        let ghost lim = fs.data_limit();
        let ghost ias = fs.inode_area_start_block as int;
        if self.find_inode_id(name, fs).is_some() {
            return None;
        }
        let new_bit = match fs.alloc_inode() {
            Some(b) => b,
            None => {
                return None;
            },
        };
        let ghost view_ab = fs_view(fs);
        let ghost bb = 1 + (new_bit as int / 8) / (BLOCK_SZ as int);
        proof {
            crate::bitmap::lemma_bit_index(new_bit as int);
            crate::tfs::lemma_bit_block_bound(new_bit as int, fs.inode_bitmap.num_blocks());
            assert(bb < ias);
            // everything at or above the inode area is untouched
            assert forall|p: int| ias <= p < view0.len() implies #[trigger] view_ab[p]
                == view0[p] by {}
            lemma_inode_untouched(ino0v, view0, view_ab, db0, ias);
            assert(node_inode(fs, *self) == ino0v);
        }
        let (nb_block, nb_off) = fs.get_disk_inode_pos(new_bit);
        let new_node = Inode::new(nb_block, nb_off);
        let new_ino = DiskInode::initialize(DiskInodeType::File);
        new_node.write_disk_inode(fs, &new_ino);
        let ghost view_ni = fs_view(fs);
        proof {
            // the new record does not overlap the directory's record
            let b0 = choose|b: int|
                0 <= b < old(fs).inode_bitmap.capacity() && #[trigger] bitmap_bit(view0, 1, b)
                    && self.block_id == old(fs).inode_area_start_block + b / 4 && self.offset
                    == (b % 4) * DISK_INODE_SZ;
            assert(new_bit != b0) by {
                assert(!bitmap_bit(view0, 1, new_bit as int));
            }
            assert(new_node.block_id != self.block_id || new_node.offset != self.offset) by {
                if new_node.block_id == self.block_id && new_node.offset == self.offset {
                    assert(new_bit as int / 4 == b0 / 4 && new_bit as int % 4 == b0 % 4);
                    assert(new_bit == b0) by (nonlinear_arith)
                        requires
                            new_bit as int / 4 == b0 / 4,
                            new_bit as int % 4 == b0 % 4,
                            0 <= new_bit,
                            0 <= b0,
                    ;
                }
            }
            assert(node_inode(fs, *self) == ino0v) by {
                if new_node.block_id == self.block_id {
                    assert(new_node.offset != self.offset);
                    assert(new_node.offset as int + DISK_INODE_SZ <= self.offset
                        || self.offset as int + DISK_INODE_SZ <= new_node.offset)
                        by (nonlinear_arith)
                        requires
                            new_node.offset == (new_bit as int % 4) * DISK_INODE_SZ,
                            self.offset == (b0 % 4) * DISK_INODE_SZ,
                            new_node.offset != self.offset,
                            DISK_INODE_SZ == 128,
                    ;
                    assert(view_ni[self.block_id as int].subrange(
                        self.offset as int,
                        self.offset + DISK_INODE_SZ,
                    ) =~= view_ab[self.block_id as int].subrange(
                        self.offset as int,
                        self.offset + DISK_INODE_SZ,
                    ));
                } else {
                    assert(view_ni[self.block_id as int] == view_ab[self.block_id as int]);
                }
            }
            // the data area is untouched
            assert forall|p: int| das <= p < view0.len() implies #[trigger] view_ni[p]
                == view_ab[p] by {
                assert(new_node.block_id < das);
            }
            lemma_inode_untouched(ino0v, view_ab, view_ni, db0, das);
            // the data bitmap is untouched
            assert forall|b2: int| 0 <= b2 < lim implies bitmap_bit(view_ni, start, b2)
                == bitmap_bit(view0, start, b2) by {
                crate::bitmap::lemma_bit_index(b2);
                crate::tfs::lemma_bit_block_bound(b2, fs.data_bitmap.num_blocks());
                let pb = start + (b2 / 8) / (BLOCK_SZ as int);
                assert(view_ni[pb] == view_ab[pb]);
                assert(view_ab[pb] == view0[pb]);
            }
            lemma_count_set_frame(view0, view_ni, start, lim);
            // the directory is still a valid tracked directory here
            assert(file_valid(fs, *self));
            assert forall|i: int| 0 <= i < count0 implies #[trigger] dir_entry_view(
                ino0v,
                view_ni,
                i,
            ) == dir_entry_view(ino0v, view0, i) by {
                lemma_entry_bytes(ino0v, view0, view_ni, i);
            }
            assert(dir_wf(fs, *self));
        }
        let entry = DirEntry::new(name, new_bit);
        let entry_bytes = entry.as_bytes();
        let dir_size = {
            let ino = self.read_disk_inode(fs);
            ino.size
        };
        let written = self.write_at(dir_size as usize, &entry_bytes, fs);
        proof {
            let view1 = fs_view(fs);
            let ino1 = node_inode(fs, *self);
            assert(ino1.size == ino0v.size + DIR_ENTRY_SZ);
            // old entries kept their bytes
            assert forall|i: int| 0 <= i < count0 implies #[trigger] dir_entry_view(
                ino1,
                view1,
                i,
            ) == dir_entry_view(ino0v, view0, i) by {
                assert forall|j: int|
                    0 <= j < DIR_ENTRY_SZ implies #[trigger] file_byte(
                    ino1,
                    view1,
                    i * DIR_ENTRY_SZ + j,
                ) == file_byte(ino0v, view_ni, i * DIR_ENTRY_SZ + j) by {
                    assert(0 <= i * DIR_ENTRY_SZ + j && i * DIR_ENTRY_SZ + j < ino0v.size
                        && !(dir_size <= i * DIR_ENTRY_SZ + j)) by (nonlinear_arith)
                        requires
                            0 <= i < count0,
                            0 <= j < DIR_ENTRY_SZ,
                            count0 == ino0v.size as int / (DIR_ENTRY_SZ as int),
                            ino0v.size as int % (DIR_ENTRY_SZ as int) == 0,
                            dir_size == ino0v.size,
                            DIR_ENTRY_SZ == 32,
                    ;
                }
                assert(Seq::new(
                    DIR_ENTRY_SZ as nat,
                    |j: int| file_byte(ino1, view1, i * DIR_ENTRY_SZ + j),
                ) =~= Seq::new(
                    DIR_ENTRY_SZ as nat,
                    |j: int| file_byte(ino0v, view_ni, i * DIR_ENTRY_SZ + j),
                ));
                lemma_entry_bytes(ino0v, view0, view_ni, i);
            }
            // the appended entry decodes to the one just written
            assert(count0 * DIR_ENTRY_SZ == ino0v.size) by (nonlinear_arith)
                requires
                    count0 == ino0v.size as int / (DIR_ENTRY_SZ as int),
                    ino0v.size as int % (DIR_ENTRY_SZ as int) == 0,
            ;
            assert forall|j: int| 0 <= j < DIR_ENTRY_SZ implies #[trigger] file_byte(
                ino1,
                view1,
                count0 * DIR_ENTRY_SZ + j,
            ) == entry_bytes@[j] by {
                assert(file_byte(ino1, view1, dir_size + j) == entry_bytes@[j]);
            }
            assert(Seq::new(
                DIR_ENTRY_SZ as nat,
                |j: int| file_byte(ino1, view1, count0 * DIR_ENTRY_SZ + j),
            ) =~= entry_bytes@);
            assert(dir_entry_view(ino1, view1, count0) == entry@);
            assert(name_bytes_of(entry@.name) == name.spec_bytes());
            assert(dir_has_name(ino1, view1, name.spec_bytes())) by {
                assert(0 <= count0 < dir_file_count(ino1)) by (nonlinear_arith)
                    requires
                        count0 == ino0v.size as int / (DIR_ENTRY_SZ as int),
                        dir_file_count(ino1) == ino1.size as int / (DIR_ENTRY_SZ as int),
                        ino1.size == ino0v.size + DIR_ENTRY_SZ,
                        ino0v.size as int % (DIR_ENTRY_SZ as int) == 0,
                        0 <= ino0v.size,
                ;
            }
            assert(dir_file_count(ino1) == count0 + 1) by (nonlinear_arith)
                requires
                    count0 == ino0v.size as int / (DIR_ENTRY_SZ as int),
                    dir_file_count(ino1) == ino1.size as int / (DIR_ENTRY_SZ as int),
                    ino1.size == ino0v.size + DIR_ENTRY_SZ,
                    ino0v.size as int % (DIR_ENTRY_SZ as int) == 0,
                    0 <= ino0v.size,
            ;
            assert(dir_wf(fs, *self));
            // the new inode's record survived the append untouched
            assert(node_inode(fs, new_node) == new_ino@) by {
                let dbn = data_blocks_of(ino1.size as int);
                if new_node.block_id == self.block_id {
                    assert(view1[new_node.block_id as int].subrange(
                        new_node.offset as int,
                        new_node.offset + DISK_INODE_SZ,
                    ) =~= view_ni[new_node.block_id as int].subrange(
                        new_node.offset as int,
                        new_node.offset + DISK_INODE_SZ,
                    )) by {
                        assert(new_node.offset as int + DISK_INODE_SZ <= self.offset
                            || self.offset as int + DISK_INODE_SZ <= new_node.offset)
                            by (nonlinear_arith)
                            requires
                                new_node.offset as int % (DISK_INODE_SZ as int) == 0,
                                self.offset as int % (DISK_INODE_SZ as int) == 0,
                                new_node.offset != self.offset,
                                0 <= new_node.offset,
                                0 <= self.offset,
                                DISK_INODE_SZ == 128,
                        ;
                    }
                } else {
                    assert(view1[new_node.block_id as int] == view_ni[
                        new_node.block_id as int]) by {
                        if owned_ids(ino1, view1, dbn).contains(new_node.block_id as u32) {
                            let m = choose|m: int|
                                0 <= m < owned_ids(ino1, view1, dbn).len()
                                    && #[trigger] owned_ids(ino1, view1, dbn)[m]
                                    == new_node.block_id as u32;
                        }
                    }
                }
            }
            assert(file_valid(fs, new_node)) by {
                assert(data_blocks_of(node_inode(fs, new_node).size as int) == 0);
                assert(owned_ids(node_inode(fs, new_node), view1, 0) =~= Seq::<u32>::empty());
            }
            // past the allocation the inode bitmap is untouched, so every
            // bit other than the new one keeps its value
            assert forall|b2: int| 0 <= b2 < old(fs).inode_bitmap.capacity() implies bitmap_bit(
                view1,
                1,
                b2,
            ) == bitmap_bit(view_ab, 1, b2) by {
                crate::bitmap::lemma_bit_index(b2);
                crate::tfs::lemma_bit_block_bound(b2, old(fs).inode_bitmap.num_blocks());
                let pb = 1 + (b2 / 8) / (BLOCK_SZ as int);
                assert(pb < ias);
                assert(view_ni[pb] == view_ab[pb]);
                assert(view1[pb] == view_ni[pb]) by {
                    let dbn = data_blocks_of(ino1.size as int);
                    if owned_ids(ino1, view1, dbn).contains(pb as u32) {
                        let m = choose|m: int|
                            0 <= m < owned_ids(ino1, view1, dbn).len() && #[trigger] owned_ids(
                                ino1,
                                view1,
                                dbn,
                            )[m] == pb as u32;
                    }
                }
            }
            assert(!crate::bitmap::all_bits_set(view0, 1, old(fs).inode_bitmap.capacity())) by {
                assert(!bitmap_bit(view0, 1, new_bit as int));
            }
            // blocks away from the two records, the bitmaps and the
            // directory's data are untouched
            let dbn = data_blocks_of(ino1.size as int);
            assert forall|p: int|
                0 <= p < view0.len() && p != self.block_id && p != new_node.block_id && !(1 <= p
                    < 1 + old(fs).inode_bitmap.num_blocks()) && !(start <= p < start + old(
                    fs,
                ).data_bitmap.num_blocks()) && !owned_ids(ino1, view1, dbn).contains(p as u32)
                    implies view1[p] == view0[p] by {
                assert(view_ab[p] == view0[p]);
                assert(view_ni[p] == view_ab[p]);
                assert(view1[p] == view_ni[p]);
            }
            assert forall|j: int|
                0 <= j < BLOCK_SZ && !(self.offset <= j < self.offset + DISK_INODE_SZ) && !(
                new_node.block_id == self.block_id && new_node.offset <= j < new_node.offset
                    + DISK_INODE_SZ) implies view1[self.block_id as int][j] == view0[
                self.block_id as int][j] by {
                assert(view_ab[self.block_id as int] == view0[self.block_id as int]);
                assert(view_ni[self.block_id as int][j] == view_ab[self.block_id as int][j]);
                assert(view1[self.block_id as int][j] == view_ni[self.block_id as int][j]);
            }
            assert forall|j: int|
                0 <= j < BLOCK_SZ && !(new_node.offset <= j < new_node.offset + DISK_INODE_SZ)
                    && !(new_node.block_id == self.block_id && self.offset <= j < self.offset
                    + DISK_INODE_SZ) implies view1[new_node.block_id as int][j] == view0[
                new_node.block_id as int][j] by {
                assert(view_ab[new_node.block_id as int] == view0[new_node.block_id as int]);
                assert(view_ni[new_node.block_id as int][j] == view_ab[
                    new_node.block_id as int][j]);
                assert(view1[new_node.block_id as int][j] == view_ni[
                    new_node.block_id as int][j]) by {
                    if new_node.block_id != self.block_id {
                        assert(view1[new_node.block_id as int] == view_ni[
                            new_node.block_id as int]) by {
                            if owned_ids(ino1, view1, dbn).contains(new_node.block_id as u32) {
                                let m = choose|m: int|
                                    0 <= m < owned_ids(ino1, view1, dbn).len()
                                        && #[trigger] owned_ids(ino1, view1, dbn)[m]
                                        == new_node.block_id as u32;
                            }
                        }
                    }
                }
            }
            assert(node_tracked(fs, new_node)) by {
                assert(bitmap_bit(view_ab, 1, new_bit as int));
            }
            assert(node_tracked(fs, *self)) by {
                let b0 = choose|b: int|
                    0 <= b < old(fs).inode_bitmap.capacity() && #[trigger] bitmap_bit(
                        view0,
                        1,
                        b,
                    ) && self.block_id == old(fs).inode_area_start_block + b / 4 && self.offset
                        == (b % 4) * DISK_INODE_SZ;
                assert(bitmap_bit(view_ab, 1, b0));
            }
        }
        Some(new_node)
    }
}

} // verus!
