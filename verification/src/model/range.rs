//! Images in which every pointer and every directory entry stays inside the
//! image, so that no operation can leave it.

use vstd::prelude::*;
use crate::block::INODE_COUNT;
use crate::error::ErrorView;
use crate::inode::{FileKind, InodeView, DIRECT_POINTERS, NULL_BLOCK};
use crate::model::dir::{block_entries, is_named, position_from, slot};
use crate::model::entry::{decode_entry, EntryView};
use crate::model::image::{lemma_first_clear, ImageView};
use crate::path::{split, split_last};

verus! {

/// The entry that [`first_named`] finds is one of the entries, is in use and
/// has the name.
pub proof fn lemma_first_named(es: Seq<EntryView>, name: Seq<char>, i: int)
    requires
        0 <= i <= es.len(),
    ensures
        i <= position_from(es, name, i) <= es.len(),
        position_from(es, name, i) < es.len() ==> is_named(
            es[position_from(es, name, i)],
            name,
        ),
        forall|j: int| i <= j < position_from(es, name, i) ==> !is_named(es[j], name),
    decreases es.len() - i,
{
    if i < es.len() && !is_named(es[i], name) {
        lemma_first_named(es, name, i + 1);
    }
}

/// The entries read from a block are the decoded slots.
pub proof fn lemma_block_entries(data: Seq<u8>, n: int)
    requires
        n >= 0,
        block_entries(data, n) is Ok,
    ensures
        block_entries(data, n)->Ok_0.len() == n,
        forall|j: int|
            #![trigger block_entries(data, n)->Ok_0[j]]
            #![trigger decode_entry(slot(data, j))]
            0 <= j < n ==> decode_entry(slot(data, j)) == Ok::<EntryView, ErrorView>(
                block_entries(data, n)->Ok_0[j],
            ),
    decreases n,
{
    if n > 0 {
        lemma_block_entries(data, n - 1);
    }
}

impl ImageView {
    /// The pointers of `node` stay inside the image.
    pub open spec fn node_in_range(self, node: InodeView) -> bool {
        &&& node.indirect == NULL_BLOCK || node.indirect < self.blocks.len()
        &&& forall|k: int|
            0 <= k < DIRECT_POINTERS + self.words() ==> {
                ||| #[trigger] self.pointer(node, k) == NULL_BLOCK
                ||| self.pointer(node, k) < self.blocks.len()
            }
    }

    /// The entries in use of the directory `node` name inodes of the table.
    pub open spec fn dir_in_range(self, node: InodeView) -> bool {
        forall|k: int, j: int|
            #![trigger self.pointer(node, k), slot(self.blocks[self.pointer(node, k) as int], j)]
            0 <= k < self.covered(node) && 0 <= j < self.slots() && self.pointer(node, k)
                != NULL_BLOCK ==> {
                decode_entry(slot(self.blocks[self.pointer(node, k) as int], j)) matches Ok(e)
                    ==> e.used ==> e.inode < INODE_COUNT
            }
    }

    /// Every pointer and every directory entry stays inside the image, whose
    /// tables have the sizes that the superblock gives.
    pub open spec fn in_range(self) -> bool {
        &&& self.shaped()
        &&& self.bs() > 0
        &&& forall|i: int|
            0 <= i < self.inodes.len() ==> {
                &&& (#[trigger] self.inodes[i]).id < INODE_COUNT
                &&& self.node_in_range(self.inodes[i])
                &&& self.inodes[i].kind == FileKind::Directory ==> self.dir_in_range(
                    self.inodes[i],
                )
            }
    }

    /// `Fs::read` of `path` stays inside the image.
    pub open spec fn can_read(self, path: Seq<char>) -> bool {
        self.in_range() || self.read_readable(path)
    }

    /// `Fs::stat` of `path` stays inside the image.
    pub open spec fn can_stat(self, path: Seq<char>) -> bool {
        self.in_range() || self.stat_readable(path)
    }

    /// `Fs::readdir` of `path` stays inside the image.
    pub open spec fn can_readdir(self, path: Seq<char>) -> bool {
        self.in_range() || self.readdir_readable(path)
    }

    /// `Fs::create` (for a file) or `Fs::mkdir` (for a directory) of `path`
    /// stays inside the image.
    pub open spec fn can_make(self, path: Seq<char>, kind: FileKind) -> bool {
        self.in_range() || self.make_readable(path, kind)
    }

    /// `Fs::write` of `path` stays inside the image.
    pub open spec fn can_write(self, path: Seq<char>) -> bool {
        self.in_range() || self.write_readable(path)
    }

    /// Each step of `Fs::store` of `path` stays inside the image.
    pub open spec fn store_readable(self, path: Seq<char>) -> bool {
        &&& self.can_stat(path)
        &&& if self.stat(path) is Ok {
            self.can_write(path)
        } else {
            &&& self.can_make(path, FileKind::File)
            &&& self.create(path).1 is Ok ==> self.create(path).0.can_write(path)
        }
    }

    /// `Fs::store` of `path` stays inside the image.
    pub open spec fn can_store(self, path: Seq<char>) -> bool {
        self.sound() || self.store_readable(path)
    }

    /// `Fs::unlink` of `path` stays inside the image.
    pub open spec fn can_unlink(self, path: Seq<char>) -> bool {
        self.in_range() || self.unlink_readable(path)
    }

    /// `Fs::rmdir` of `path` stays inside the image.
    pub open spec fn can_rmdir(self, path: Seq<char>) -> bool {
        self.in_range() || self.rmdir_readable(path)
    }

    /// Pointers that stay inside the image lead to blocks that can be read.
    pub proof fn lemma_node_readable(self, node: InodeView)
        requires
            self.shaped(),
            self.node_in_range(node),
        ensures
            forall|k: int| k >= 0 ==> #[trigger] self.block_readable(node, k),
            self.pointers_readable(node),
    {
        assert forall|k: int| k >= 0 implies #[trigger] self.block_readable(node, k) by {
            if k < DIRECT_POINTERS + self.words() {
                assert(self.pointer(node, k) == NULL_BLOCK || self.pointer(node, k)
                    < self.blocks.len());
            }
        }
    }

    /// The entries in use of a directory in range name inodes of the table.
    pub proof fn lemma_scan_in_range(self, node: InodeView, k: int)
        requires
            self.dir_in_range(node),
            0 <= k <= self.covered(node),
            self.scan(node, k) is Ok,
        ensures
            forall|i: int|
                0 <= i < self.scan(node, k)->Ok_0.len() && (#[trigger] self.scan(
                    node,
                    k,
                )->Ok_0[i]).used ==> self.scan(node, k)->Ok_0[i].inode < INODE_COUNT,
        decreases k,
    {
        if k > 0 {
            self.lemma_scan_in_range(node, k - 1);
            let p = self.pointer(node, k - 1);
            let data = self.blocks[p as int];
            let head = self.scan(node, k - 1)->Ok_0;
            let n: int = self.slots();
            lemma_block_entries(data, n);
            let tail = block_entries(data, n)->Ok_0;
            let all = self.scan(node, k)->Ok_0;
            assert forall|i: int| 0 <= i < all.len() && (#[trigger] all[i]).used implies all[i].inode
                < INODE_COUNT by {
                if i < head.len() {
                    assert(all[i] == head[i]);
                } else {
                    let j = i - head.len();
                    assert(all[i] == tail[j]);
                    assert(self.pointer(node, k - 1) != NULL_BLOCK);
                    assert(decode_entry(slot(self.blocks[self.pointer(node, k - 1) as int], j))
                        == Ok::<EntryView, ErrorView>(tail[j]));
                }
            }
        }
    }

    /// In an image in range, following names stays inside the image.
    pub proof fn lemma_resolve_readable(self, parts: Seq<Seq<char>>)
        requires
            self.in_range(),
        ensures
            self.resolve_readable(parts),
        decreases parts.len(),
    {
        if parts.len() > 0 {
            self.lemma_resolve_readable(parts.drop_last());
            if let Ok(dir) = self.resolve(parts.drop_last()) {
                let node = self.inodes[dir as int];
                self.lemma_node_readable(node);
                if self.kind(dir) == FileKind::Directory {
                    self.lemma_found_in_range(dir, parts.last());
                }
            }
        }
    }

    /// In an image in range, the entry found in a directory names an inode of
    /// the table.
    pub proof fn lemma_found_in_range(self, dir: u32, name: Seq<char>)
        requires
            self.in_range(),
            dir < self.inodes.len(),
            self.kind(dir) == FileKind::Directory,
        ensures
            self.scan_readable(self.inodes[dir as int]),
            self.list_readable(dir),
            self.find_entry(self.inodes[dir as int], name) matches Ok(Some(e)) ==> e.inode
                < INODE_COUNT,
    {
        let node = self.inodes[dir as int];
        self.lemma_node_readable(node);
        self.lemma_covered_nonnegative(node);
        if let Ok(es) = self.entries(node) {
            self.lemma_scan_in_range(node, self.covered(node));
            lemma_first_named(es, name, 0);
        }
    }

    /// A size covers no negative number of blocks.
    pub proof fn lemma_covered_nonnegative(self, node: InodeView)
        requires
            self.bs() > 0,
        ensures
            self.covered(node) >= 0,
    {
        vstd::arithmetic::div_mod::lemma_div_pos_is_pos(node.size + self.bs() - 1, self.bs());
    }

    /// In an image in range, looking up a path stays inside the image.
    pub proof fn lemma_lookup_readable(self, path: Seq<char>)
        requires
            self.in_range(),
        ensures
            self.lookup_readable(path),
            self.read_readable(path),
            self.stat_readable(path),
            self.readdir_readable(path),
            self.write_readable(path),
    {
        if let Ok(parts) = split(path) {
            self.lemma_resolve_readable(parts);
            if let Ok(id) = self.resolve(parts) {
                self.lemma_node_readable(self.inodes[id as int]);
                if self.kind(id) == FileKind::Directory {
                    self.lemma_found_in_range(id, Seq::empty());
                }
            }
        }
    }

    /// A size that covers no more blocks than the pointer scheme has leaves
    /// room for one more block.
    pub proof fn lemma_size_bound(self, node: InodeView)
        requires
            self.bs() > 0,
            self.covered(node) <= DIRECT_POINTERS + self.words(),
        ensures
            node.size <= self.covered(node) * self.bs(),
            node.size + self.bs() <= u64::MAX,
    {
        let bs = self.bs();
        let n = self.covered(node);
        vstd::arithmetic::div_mod::lemma_fundamental_div_mod(node.size + bs - 1, bs);
        assert(node.size <= n * bs) by {
            vstd::arithmetic::mul::lemma_mul_is_commutative(n, bs);
        }
        assert(n * bs + bs <= 0x4000_0010 * 0xffff_ffff) by (nonlinear_arith)
            requires
                n <= 12 + bs / 4,
                bs <= 0xffff_ffff,
                bs > 0,
        ;
    }

    /// A data block that can be had lies inside the image, and is one of those
    /// that the pointer scheme has.
    pub proof fn lemma_alloc_inside(self, id: int, k: int)
        requires
            self.shaped(),
            0 <= id < self.inodes.len(),
            0 <= k,
            self.block_readable(self.inodes[id], k),
        ensures
            self.alloc_logical_block(id, k).1 matches Ok(b) ==> {
                &&& b < self.blocks.len()
                &&& k < DIRECT_POINTERS + self.words()
            },
    {
        lemma_first_clear(self.bitmap, 0);
        if self.alloc_indirect(id).1 is Ok {
            lemma_first_clear(self.alloc_indirect(id).0.bitmap, 0);
        }
    }

    /// In an image in range, making an entry stays inside the image.
    pub proof fn lemma_make_readable(self, path: Seq<char>, kind: FileKind)
        requires
            self.in_range(),
        ensures
            self.make_readable(path, kind),
    {
        if let Ok(Some((parts, name))) = split_last(path) {
            self.lemma_resolve_readable(parts);
            if let Ok(dir) = self.resolve(parts) {
                if self.kind(dir) == FileKind::Directory {
                    self.lemma_found_in_range(dir, name);
                    if self.slots() > 0 {
                        self.lemma_add_readable(dir as int, kind);
                    }
                }
            }
        }
    }

    /// In an image in range, an entry can be added after an inode was claimed.
    pub proof fn lemma_add_readable(self, dir: int, kind: FileKind)
        requires
            self.in_range(),
            0 <= dir < self.inodes.len(),
            self.slots() > 0,
        ensures
            self.make_in_readable(dir, kind),
    {
        let i = self.vacant(kind);
        self.lemma_vacant(kind);
        if i < self.inodes.len() {
            let img = self.claim_inode(kind).0;
            let node = img.inodes[dir];
            assert(img.shaped());
            assert(img.node_in_range(node)) by {
                assert forall|k: int| 0 <= k < DIRECT_POINTERS + img.words() implies {
                    ||| #[trigger] img.pointer(node, k) == NULL_BLOCK
                    ||| img.pointer(node, k) < img.blocks.len()
                } by {
                    assert(img.pointer(node, k) == self.pointer(node, k));
                    if dir != i {
                        assert(node == self.inodes[dir]);
                    }
                }
            }
            img.lemma_node_readable(node);
            img.lemma_covered_nonnegative(node);
        }
    }

    /// In an image in range, removing an entry of a directory stays inside the
    /// image.
    pub proof fn lemma_remove_readable(self, path: Seq<char>)
        requires
            self.in_range(),
        ensures
            self.unlink_readable(path),
            self.rmdir_readable(path),
    {
        if let Ok(Some((parts, name))) = split_last(path) {
            self.lemma_resolve_readable(parts);
            if let Ok(dir) = self.resolve(parts) {
                if self.kind(dir) == FileKind::Directory {
                    self.lemma_found_in_range(dir, name);
                }
                if let Ok((_, id)) = self.occupant(parts, name, path) {
                    self.lemma_node_readable(self.inodes[id as int]);
                    if self.kind(id) == FileKind::Directory {
                        self.lemma_found_in_range(id, Seq::empty());
                    }
                }
            }
        }
    }
}

} // verus!
