//! Unit exercises of the on-disk records, the block math and the bitmap.
use tiny_fs::layout::{DirEntry, DiskInode, DiskInodeType, SuperBlock};
use tiny_fs::bitmap::Bitmap;
use tiny_fs::block_dev::MemBlockDevice;
use tiny_fs::block_cache::BlockCacheManager;

#[test]
fn block_counts_match_the_indirection_scheme() {
    // within the direct table
    assert_eq!(DiskInode::total_blocks(0), 0);
    assert_eq!(DiskInode::total_blocks(1), 1);
    assert_eq!(DiskInode::total_blocks(512), 1);
    assert_eq!(DiskInode::total_blocks(513), 2);
    assert_eq!(DiskInode::total_blocks(28 * 512), 28);
    // one more data block brings in the singly-indirect block
    assert_eq!(DiskInode::total_blocks(28 * 512 + 1), 30);
    assert_eq!(DiskInode::total_blocks(156 * 512), 157);
    // crossing into the doubly-indirect tree costs its root and one group
    assert_eq!(DiskInode::total_blocks(156 * 512 + 1), 160);
    assert_eq!(DiskInode::total_blocks(157 * 512), 160);
    // a second group appears after 128 more data blocks
    assert_eq!(DiskInode::total_blocks((156 + 128) * 512), 287);
    assert_eq!(DiskInode::total_blocks((156 + 128) * 512 + 1), 289);
    // the largest supported file
    assert_eq!(DiskInode::total_blocks(16540 * 512), 16540 + 1 + 1 + 128);
}

#[test]
fn blocks_num_needed_is_the_difference() {
    let ino = DiskInode::initialize(DiskInodeType::File);
    assert_eq!(ino.blocks_num_needed(512), 1);
    assert_eq!(ino.blocks_num_needed(28 * 512 + 1), 30);
    assert_eq!(ino.data_blocks(), 0);
}

#[test]
fn super_block_round_trips_through_bytes() {
    let mut sb = SuperBlock {
        magic: 0,
        total_blocks: 0,
        inode_bitmap_blocks: 0,
        inode_area_blocks: 0,
        data_bitmap_blocks: 0,
        data_area_blocks: 0,
    };
    sb.initialize(8192, 1, 1024, 2, 7164);
    assert!(sb.is_valid());
    let bytes = sb.encode();
    assert_eq!(bytes.len(), 24);
    let back = SuperBlock::decode(&bytes);
    assert!(back.is_valid());
    assert_eq!(back.total_blocks, 8192);
    assert_eq!(back.inode_bitmap_blocks, 1);
    assert_eq!(back.inode_area_blocks, 1024);
    assert_eq!(back.data_bitmap_blocks, 2);
    assert_eq!(back.data_area_blocks, 7164);
}

#[test]
fn disk_inode_round_trips_through_bytes() {
    let mut ino = DiskInode::initialize(DiskInodeType::Directory);
    ino.size = 96;
    let bytes = ino.encode();
    assert_eq!(bytes.len(), 128);
    let back = DiskInode::decode(&bytes);
    assert_eq!(back.size, 96);
    assert!(back.is_dir());
    assert!(!back.is_file());
    assert_eq!(back.indirect1, 0);
    assert_eq!(back.indirect2, 0);
}

#[test]
fn dir_entry_keeps_name_and_number() {
    let e = DirEntry::new("file_a", 7);
    assert_eq!(e.inode_number(), 7);
    assert_eq!(e.name(), "file_a".to_string());
    let bytes = e.as_bytes();
    assert_eq!(bytes.len(), 32);
    let back = DirEntry::decode(&bytes);
    assert_eq!(back.name(), "file_a".to_string());
    assert_eq!(back.inode_number(), 7);
    let empty = DirEntry::empty();
    assert_eq!(empty.name(), String::new());
    assert_eq!(empty.inode_number(), 0);
}

#[test]
fn dir_entry_keeps_multibyte_names() {
    // a name whose char count is below its byte count round-trips intact
    let e = DirEntry::new("héllo-wörld", 3);
    assert_eq!(e.name(), "héllo-wörld".to_string());
    let back = DirEntry::decode(&e.as_bytes());
    assert_eq!(back.name(), "héllo-wörld".to_string());
}

#[test]
fn bitmap_hands_out_lowest_clear_bits() {
    let mut dev = MemBlockDevice::new(16);
    let mut manager = BlockCacheManager::new();
    let bm = Bitmap::new(1, 1);
    assert_eq!(bm.maxium(), 4096);
    assert_eq!(bm.allocate(&mut manager, &mut dev), Some(0));
    assert_eq!(bm.allocate(&mut manager, &mut dev), Some(1));
    assert_eq!(bm.allocate(&mut manager, &mut dev), Some(2));
    bm.dealloc(&mut manager, &mut dev, 1);
    // the freed bit is the lowest clear one again
    assert_eq!(bm.allocate(&mut manager, &mut dev), Some(1));
    assert_eq!(bm.allocate(&mut manager, &mut dev), Some(3));
}

#[test]
fn bitmap_runs_dry_at_capacity() {
    let mut dev = MemBlockDevice::new(2);
    let mut manager = BlockCacheManager::new();
    let bm = Bitmap::new(1, 1);
    for expected in 0..4096usize {
        assert_eq!(bm.allocate(&mut manager, &mut dev), Some(expected));
    }
    assert_eq!(bm.allocate(&mut manager, &mut dev), None);
}
