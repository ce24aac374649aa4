//! Reading: what is always there to be read.

use vstd::prelude::*;
use crate::error::ErrorView;
use crate::inode::{FileKind, DIRECT_POINTERS, NULL_BLOCK};
use crate::model::format::{image_bytes, law_dump_load, read_image};
use crate::model::image::ImageView;
use crate::path::split;
use crate::text::decimal;

verus! {

/// Every file that a path names can be read, and its length is the size that
/// `stat` shows.
pub proof fn law_files_read(img: ImageView, path: Seq<char>)
    requires
        img.sound(),
        img.stat(path) matches Ok(st) && st.kind == FileKind::File,
    ensures
        img.read(path) is Ok,
        img.read(path)->Ok_0.len() == img.stat(path)->Ok_0.size,
{
    let id: u32 = img.lookup(path)->Ok_0;
    let node = img.inodes[id as int];
    img.lemma_resolve_allocated(split(path)->Ok_0);
    assert(img.node_sound(id as int));
    img.lemma_covered_nonnegative(node);
    img.lemma_first_missing(node, 0);
    let k = img.first_missing(node);
    if k < img.covered(node) {
        assert(img.pointer(node, k) != NULL_BLOCK);
    }
}

/// A file of blocks without bytes reads as nothing if its size is zero; else no
/// number of blocks makes up the size, and the first missing one is told.
pub proof fn law_read_without_bytes(img: ImageView, path: Seq<char>)
    requires
        img.bs() == 0,
        img.lookup(path) matches Ok(id) && img.kind(id) == FileKind::File,
    ensures
        ({
            let id = img.lookup(path)->Ok_0;
            let node = img.inodes[id as int];
            let k = img.first_missing(node);
            &&& node.size == 0 ==> img.read(path) == Ok::<Seq<u8>, ErrorView>(Seq::empty())
            &&& node.size > 0 ==> {
                &&& 0 <= k <= DIRECT_POINTERS
                &&& img.pointer(node, k) == NULL_BLOCK
                &&& forall|j: int| 0 <= j < k ==> #[trigger] img.pointer(node, j) != NULL_BLOCK
                &&& img.read(path) == Err::<Seq<u8>, ErrorView>(
                    ErrorView::Corrupt(
                        "missing block "@ + decimal(k as nat) + " for inode "@ + decimal(
                            id as nat,
                        ),
                    ),
                )
            }
        }),
{
    let id: u32 = img.lookup(path)->Ok_0;
    let node = img.inodes[id as int];
    img.lemma_first_missing(node, 0);
    if node.size == 0 {
        assert(img.contents(node) =~= Seq::empty());
    } else if img.first_missing(node) > DIRECT_POINTERS {
        assert(img.pointer(node, DIRECT_POINTERS as int) != NULL_BLOCK);
    }
}

/// Every directory that a path names can be listed, where all directories can
/// be read.
pub proof fn law_directories_list(img: ImageView, path: Seq<char>)
    requires
        img.healthy(),
        img.stat(path) matches Ok(st) && st.kind == FileKind::Directory,
    ensures
        img.readdir(path) is Ok,
{
    let id: u32 = img.lookup(path)->Ok_0;
    img.lemma_resolve_allocated(split(path)->Ok_0);
    img.lemma_entries_ok(id as int);
}

/// What `stat` shows is the inode that the path names, and it has one link.
pub proof fn law_stat_inode(img: ImageView, path: Seq<char>)
    requires
        img.sound(),
        img.stat(path) is Ok,
    ensures
        img.lookup(path) == Ok::<u32, ErrorView>(img.stat(path)->Ok_0.inode),
        img.stat(path)->Ok_0.link_count == 1,
{
    let id: u32 = img.lookup(path)->Ok_0;
    img.lemma_resolve_allocated(split(path)->Ok_0);
    assert(img.node_sound(id as int));
}

/// An image whose tables agree survives being dumped and loaded.
pub proof fn law_sound_dump_load(img: ImageView, rest: Seq<u8>)
    requires
        img.sound(),
    ensures
        read_image(image_bytes(img) + rest) == (Ok::<ImageView, ErrorView>(img), rest),
{
    assert forall|i: int| 0 <= i < img.inodes.len() implies (#[trigger] img.inodes[i]).id == i by {
        assert(img.node_sound(i));
    }
    law_dump_load(img, rest);
}

} // verus!
