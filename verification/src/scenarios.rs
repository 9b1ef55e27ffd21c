//! A verified end-to-end exercise of the public contracts: format a
//! device, mount it again, create a file in the root, write it and read
//! it back.  Every step's precondition is discharged from the previous
//! step's contract alone, so the operations are proven to compose.
use vstd::prelude::*;
use vstd::string::StringSliceAdditionalSpecFns;
use crate::block_dev::{BlockDevice, blocks_wf};
use crate::tfs::TinyFileSystem;
use crate::vfs::{file_valid, dir_wf, node_tracked, node_inode};
use crate::layout::total_blocks_of;
use crate::bitmap::count_set;

verus! {

/// Format `dev`, remount it, create `"file_a"` in the root, write one
/// hundred bytes of sevens at offset 0, and prove the read returns them.
pub fn format_write_and_read_back<D: BlockDevice>(dev: D) -> (fs: TinyFileSystem<D>)
    requires
        blocks_wf(dev.blocks()),
        dev.blocks().len() == 32768,
    ensures
        fs.wf(),
{
    let fs = TinyFileSystem::create(dev, 32768, 1);
    // the freshly created image can be mounted again
    let mut fs = TinyFileSystem::open(fs.block_device);
    let root = fs.root_inode();
    proof {
        assert(file_valid(&fs, root));
        assert(dir_wf(&fs, root));
        assert(node_tracked(&fs, root));
        assert(count_set(crate::tfs::fs_view(&fs), fs.data_bitmap.start(), fs.data_limit())
            == 0);
        assert(total_blocks_of(32int) - total_blocks_of(0int) == 1);
        assert(fs.data_limit() >= 1);
    }
    // the root accepts a first file
    proof {
        broadcast use vstd::string::group_string_axioms;

        reveal_strlit("file_a");
        assert(("file_a")@.len() == 6);
        assert(vstd::utf8::is_ascii_chars(("file_a")@)) by {
            assert forall|i: int| 0 <= i < 6 implies (("file_a")@[i] as nat) < 128 by {
                assert(("file_a")@[0] == 'f' && ("file_a")@[1] == 'i' && ("file_a")@[2] == 'l'
                    && ("file_a")@[3] == 'e' && ("file_a")@[4] == '_' && ("file_a")@[5]
                    == 'a');
            }
        }
        assert(vstd::string::is_ascii("file_a"));
        assert(("file_a").spec_bytes() =~= Seq::new(6nat, |i: int| ("file_a")@[i] as u8));
        assert forall|k: int| 0 <= k < 6 implies ("file_a").spec_bytes()[k] != 0u8 by {
            assert(("file_a")@[0] == 'f' && ("file_a")@[1] == 'i' && ("file_a")@[2] == 'l'
                && ("file_a")@[3] == 'e' && ("file_a")@[4] == '_' && ("file_a")@[5] == 'a');
        }
    }
    let ghost view_before = crate::tfs::fs_view(&fs);
    let ghost root_ino = node_inode(&fs, root);
    let ghost cap = fs.inode_bitmap.capacity();
    let f = root.create("file_a", &mut fs);
    proof {
        assert(crate::vfs::dir_file_count(root_ino) == 0);
        assert(!crate::vfs::dir_has_name(root_ino, view_before, ("file_a").spec_bytes()));
        assert(!crate::bitmap::all_bits_set(view_before, 1, cap)) by {
            assert(!crate::bitmap::bitmap_bit(view_before, 1, 1));
        }
        assert(f is Some);
    }
    let node = match f {
        Some(n) => n,
        None => {
            proof {
                assert(false);
            }
            root
        },
    };
    // the new file takes a write and hands the bytes back
    let data: Vec<u8> = vec![7u8; 100];
    proof {
        assert(node_inode(&fs, node).size == 0);
    }
    let w = node.write_at(0, &data, &mut fs);
    proof {
        assert(w == 100);
    }
    let mut buf: Vec<u8> = vec![0u8; 100];
    let r = node.read_at(0, &mut buf, &mut fs);
    proof {
        assert(r == 100);
        assert(buf@[3] == 7u8);
    }
    fs
}

} // verus!
