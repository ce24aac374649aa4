//! Fresh images: the geometry that was asked for, all of it free.

use vstd::prelude::*;
use crate::error::ErrorView;
use crate::inode::{FileKind, NULL_BLOCK};
use crate::laws::make::lemma_live_null;
use crate::laws::space::clear_count;
use crate::model::image::{new_image, ImageView};
use crate::model::tree::{ItemView, StatView};
use crate::path::{components, split};

verus! {

/// Where no bit is set, all are clear.
proof fn lemma_all_clear(bits: Seq<bool>)
    requires
        forall|b: int| 0 <= b < bits.len() ==> !bits[b],
    ensures
        clear_count(bits) == bits.len(),
    decreases bits.len(),
{
    if bits.len() > 0 {
        lemma_all_clear(bits.drop_last());
        assert(!bits[bits.len() - 1]);
    }
}

/// The path `/` has no components.
pub proof fn lemma_root_path()
    ensures
        split("/"@) == Ok::<Seq<Seq<char>>, ErrorView>(Seq::empty()),
{
    reveal_strlit("/");
    reveal_with_fuel(components, 2);
    assert("/"@.drop_last() =~= Seq::empty());
    assert(components("/"@) =~= Seq::empty());
}

/// A fresh image is made for every block size from 64 bytes on and every number
/// of blocks but zero. It has that geometry, 256 inodes of which the root alone
/// is in use, only free blocks, which hold zeros, and an empty root directory.
pub proof fn law_new_image(block_size: nat, num_blocks: nat)
    requires
        block_size <= u32::MAX,
        num_blocks <= u32::MAX,
    ensures
        new_image(block_size, num_blocks) is Ok <==> block_size >= 64 && num_blocks > 0,
        block_size < 64 ==> new_image(block_size, num_blocks) == Err::<ImageView, ErrorView>(
            ErrorView::Corrupt("block size must be at least 64 bytes"@),
        ),
        block_size >= 64 && num_blocks == 0 ==> new_image(block_size, num_blocks) == Err::<
            ImageView,
            ErrorView,
        >(ErrorView::Corrupt("num_blocks must be > 0"@)),
        new_image(block_size, num_blocks) matches Ok(img) ==> {
            &&& img.sb.block_size == block_size
            &&& img.sb.num_blocks == num_blocks
            &&& img.sb.num_inodes == 256
            &&& img.sb.root_inode == 0
            &&& img.bitmap.len() == num_blocks
            &&& img.blocks.len() == num_blocks
            &&& forall|b: int| 0 <= b < num_blocks ==> !(#[trigger] img.bitmap[b])
            &&& forall|b: int|
                0 <= b < num_blocks ==> (#[trigger] img.blocks[b]).len() == block_size
            &&& forall|b: int, p: int|
                0 <= b < num_blocks && 0 <= p < block_size ==> #[trigger] img.blocks[b][p] == 0
            &&& img.free_blocks() == num_blocks
            &&& img.inodes.len() == 256
            &&& forall|i: int|
                0 <= i < 256 ==> {
                    let node = #[trigger] img.inodes[i];
                    &&& node.id == i
                    &&& node.allocated <==> i == 0
                    &&& node.kind == if i == 0 {
                        FileKind::Directory
                    } else {
                        FileKind::File
                    }
                    &&& node.link_count == if i == 0 {
                        1u16
                    } else {
                        0u16
                    }
                    &&& node.size == 0
                    &&& node.direct.len() == 12
                    &&& forall|k: int| 0 <= k < 12 ==> node.direct[k] == NULL_BLOCK
                    &&& node.indirect == NULL_BLOCK
                }
            &&& img.readdir("/"@) == Ok::<Seq<ItemView>, ErrorView>(Seq::empty())
            &&& img.stat("/"@) == Ok::<StatView, ErrorView>(
                StatView {
                    inode: 0,
                    kind: FileKind::Directory,
                    size: 0,
                    link_count: 1,
                    blocks: 0,
                },
            )
        },
{
    if let Ok(img) = new_image(block_size, num_blocks) {
        lemma_root_path();
        lemma_all_clear(img.bitmap);
        let node = img.inodes[0];
        assert(img.lookup("/"@) == Ok::<u32, ErrorView>(0));
        img.lemma_empty_covers_none(node);
        assert(img.entries(node)->Ok_0 =~= Seq::empty());
        assert(img.listing(Seq::empty()) =~= Seq::empty());
        assert(img.pointer_fields(node) == node.direct);
        lemma_live_null(node.direct);
    }
}

} // verus!
