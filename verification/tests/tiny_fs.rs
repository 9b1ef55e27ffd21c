//! End-to-end exercises of the file system over an in-memory device.
use tiny_fs::block_dev::{BlockDevice, MemBlockDevice};
use tiny_fs::layout::SuperBlock;
use tiny_fs::tfs::TinyFileSystem;
use tiny_fs::BLOCK_SZ;

#[test]
fn tiny_fs_test() {
    let dev = MemBlockDevice::new(8192);
    let fs = TinyFileSystem::create(dev, 8192, 1);
    // remount the image, as a host normally would
    let mut fs = TinyFileSystem::open(fs.block_device);
    let root_inode = fs.root_inode();
    // create file test
    root_inode.create("file_a", &mut fs);
    root_inode.create("file_b", &mut fs);
    let names = root_inode.ls(&mut fs);
    assert_eq!(names, vec!["file_a".to_string(), "file_b".to_string()]);
    // write file test
    let test_str = "hello, tiny-fs!";
    let file_a = root_inode.find("file_a", &mut fs).unwrap();
    file_a.write_at(0, &test_str.as_bytes().to_vec(), &mut fs);
    let mut buf = vec![0u8; 512];
    let len = file_a.read_at(0, &mut buf, &mut fs);
    assert_eq!(test_str, core::str::from_utf8(&buf[..len]).unwrap());

    // random string test
    let mut random_str_test = |len: usize, fs: &mut TinyFileSystem<MemBlockDevice>| {
        file_a.clear(fs);
        let mut buf = vec![0u8; 512];
        assert_eq!(file_a.read_at(0, &mut buf, fs), 0);
        let mut str_random = String::new();
        for _ in 0..len {
            str_random.push(char::from(b'0' + rand::random::<u8>() % 10));
        }
        file_a.write_at(0, &str_random.as_bytes().to_vec(), fs);
        let mut read_str = String::new();
        let mut read_buf = vec![0u8; 10];
        let mut offset = 0usize;
        loop {
            let len = file_a.read_at(offset, &mut read_buf, fs);
            if len == 0 {
                break;
            }
            offset += len;
            read_str.push_str(core::str::from_utf8(&read_buf[..len]).unwrap());
        }
        assert_eq!(str_random, read_str);
    };

    random_str_test(4 * BLOCK_SZ, &mut fs);
    random_str_test(8 * BLOCK_SZ + BLOCK_SZ / 2, &mut fs);
    random_str_test(100 * BLOCK_SZ, &mut fs);
    random_str_test(70 * BLOCK_SZ + BLOCK_SZ / 7, &mut fs);
    random_str_test((12 + 128) * BLOCK_SZ, &mut fs);
    random_str_test(400 * BLOCK_SZ, &mut fs);
    random_str_test(1000 * BLOCK_SZ, &mut fs);
    random_str_test(2000 * BLOCK_SZ, &mut fs);
}

#[test]
fn verified_composition_runs() {
    // the fully verified format/remount/create/write/read chain
    let dev = MemBlockDevice::new(32768);
    let fs = tiny_fs::scenarios::format_write_and_read_back(dev);
    let mut fs = fs;
    let root = fs.root_inode();
    assert_eq!(root.ls(&mut fs), vec!["file_a".to_string()]);
}

#[test]
fn fresh_image_has_empty_root() {
    let dev = MemBlockDevice::new(32768);
    let fs = TinyFileSystem::create(dev, 32768, 1);
    // the super block of the fresh image is valid and accounts for every block
    let mut block0 = vec![0u8; BLOCK_SZ];
    fs.block_device.read_block(0, &mut block0);
    let sb = SuperBlock::decode(&block0);
    assert!(sb.is_valid());
    assert_eq!(sb.total_blocks, 32768);
    assert_eq!(sb.inode_bitmap_blocks, 1);
    assert_eq!(
        1 + sb.inode_bitmap_blocks + sb.inode_area_blocks + sb.data_bitmap_blocks
            + sb.data_area_blocks,
        sb.total_blocks
    );
    let mut fs = TinyFileSystem::open(fs.block_device);
    let root = fs.root_inode();
    assert!(root.ls(&mut fs).is_empty());
    assert!(root.find("anything", &mut fs).is_none());
}

#[test]
fn create_lists_names_and_rejects_duplicates() {
    let dev = MemBlockDevice::new(8192);
    let mut fs = TinyFileSystem::create(dev, 8192, 1);
    let root = fs.root_inode();
    assert!(root.create("file_a", &mut fs).is_some());
    assert!(root.create("file_b", &mut fs).is_some());
    assert_eq!(root.ls(&mut fs), vec!["file_a".to_string(), "file_b".to_string()]);
    assert!(root.create("file_a", &mut fs).is_none());
    assert_eq!(root.ls(&mut fs).len(), 2);
}

#[test]
fn multibyte_names_survive_the_directory() {
    let dev = MemBlockDevice::new(8192);
    let mut fs = TinyFileSystem::create(dev, 8192, 1);
    let root = fs.root_inode();
    assert!(root.create("héllo", &mut fs).is_some());
    assert_eq!(root.ls(&mut fs), vec!["héllo".to_string()]);
    assert!(root.find("héllo", &mut fs).is_some());
    assert!(root.create("héllo", &mut fs).is_none());
}

#[test]
fn short_write_reads_back() {
    let dev = MemBlockDevice::new(8192);
    let mut fs = TinyFileSystem::create(dev, 8192, 1);
    let root = fs.root_inode();
    let f = root.create("file_a", &mut fs).unwrap();
    let msg = "hello, tiny-fs!";
    let written = f.write_at(0, &msg.as_bytes().to_vec(), &mut fs);
    assert_eq!(written, msg.len());
    let mut buf = vec![0u8; 512];
    let n = f.read_at(0, &mut buf, &mut fs);
    assert_eq!(n, 15);
    assert_eq!(&buf[..15], msg.as_bytes());
    for b in &buf[15..] {
        assert_eq!(*b, 0);
    }
}

#[test]
fn clear_empties_the_file_and_is_idempotent() {
    let dev = MemBlockDevice::new(8192);
    let mut fs = TinyFileSystem::create(dev, 8192, 1);
    let root = fs.root_inode();
    let f = root.create("data", &mut fs).unwrap();
    let payload: Vec<u8> = (0..40000u32).map(|i| (i % 251) as u8).collect();
    f.write_at(0, &payload, &mut fs);
    f.clear(&mut fs);
    let mut buf = vec![0u8; 64];
    assert_eq!(f.read_at(0, &mut buf, &mut fs), 0);
    // a second clear finds nothing left to free
    f.clear(&mut fs);
    assert_eq!(f.read_at(0, &mut buf, &mut fs), 0);
    // the file is usable again afterwards
    f.write_at(0, &b"fresh".to_vec(), &mut fs);
    let n = f.read_at(0, &mut buf, &mut fs);
    assert_eq!(&buf[..n], b"fresh");
}

#[test]
fn inode_exhaustion_softens_to_none() {
    let dev = MemBlockDevice::new(8192);
    let mut fs = TinyFileSystem::create(dev, 8192, 1);
    // the root holds bit 0; take the remaining 4095 inode bits
    for _ in 0..4095 {
        assert!(fs.alloc_inode().is_some());
    }
    assert!(fs.alloc_inode().is_none());
    // with every inode taken, creating a file reports failure
    let root = fs.root_inode();
    assert!(root.create("late", &mut fs).is_none());
}

#[test]
fn offsets_within_and_across_blocks() {
    let dev = MemBlockDevice::new(8192);
    let mut fs = TinyFileSystem::create(dev, 8192, 1);
    let root = fs.root_inode();
    let f = root.create("spans", &mut fs).unwrap();
    // lay down two blocks of marker bytes
    let base = vec![0xAAu8; 2 * BLOCK_SZ];
    f.write_at(0, &base, &mut fs);
    // overwrite a range straddling the block boundary
    let patch = vec![0x55u8; 100];
    f.write_at(BLOCK_SZ - 50, &patch, &mut fs);
    let mut buf = vec![0u8; 2 * BLOCK_SZ];
    assert_eq!(f.read_at(0, &mut buf, &mut fs), 2 * BLOCK_SZ);
    for (i, b) in buf.iter().enumerate() {
        if i >= BLOCK_SZ - 50 && i < BLOCK_SZ + 50 {
            assert_eq!(*b, 0x55, "byte {}", i);
        } else {
            assert_eq!(*b, 0xAA, "byte {}", i);
        }
    }
}
