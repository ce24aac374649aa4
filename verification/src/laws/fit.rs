//! First fit: which of the free blocks the operations claim.

use vstd::prelude::*;
use crate::error::ErrorView;
use crate::inode::{FileKind, NULL_BLOCK};
use crate::model::image::{ceil_div, lemma_ceil_div, lemma_first_clear, ImageView};
use crate::path::{split, split_last};

verus! {

/// What was used is used still, and every block that was claimed comes before
/// all those that are free still.
pub open spec fn first_fit(before: Seq<bool>, after: Seq<bool>) -> bool {
    &&& after.len() == before.len()
    &&& forall|b: int| 0 <= b < before.len() && #[trigger] before[b] ==> after[b]
    &&& forall|b: int, c: int|
        0 <= b < before.len() && 0 <= c < before.len() && #[trigger] after[b] && !before[b]
            && !#[trigger] after[c] ==> b < c
}

proof fn lemma_fit_trans(a: Seq<bool>, b: Seq<bool>, c: Seq<bool>)
    requires
        first_fit(a, b),
        first_fit(b, c),
    ensures
        first_fit(a, c),
{
    assert forall|x: int| 0 <= x < a.len() && #[trigger] a[x] implies c[x] by {
        assert(b[x]);
    }
    assert forall|x: int, y: int|
        0 <= x < a.len() && 0 <= y < a.len() && #[trigger] c[x] && !a[x]
            && !#[trigger] c[y] implies x < y by {
        if b[y] {
            assert(c[y]);
        }
        assert(b[x] || !b[x]);
    }
}

impl ImageView {
    proof fn lemma_alloc_fit(self)
        ensures
            first_fit(self.bitmap, self.alloc_block().0.bitmap),
    {
        lemma_first_clear(self.bitmap, 0);
    }

    proof fn lemma_alloc_logical_fit(self, id: int, k: int)
        ensures
            first_fit(self.bitmap, self.alloc_logical_block(id, k).0.bitmap),
    {
        self.lemma_alloc_fit();
        if self.alloc_indirect(id).1 is Ok {
            let mid = self.alloc_indirect(id).0;
            mid.lemma_alloc_fit();
            lemma_fit_trans(self.bitmap, mid.bitmap, mid.alloc_block().0.bitmap);
        }
    }

    proof fn lemma_write_blocks_fit(self, id: int, data: Seq<u8>, n: int)
        ensures
            first_fit(self.bitmap, self.write_blocks(id, data, n).0.bitmap),
        decreases n,
    {
        if n > 0 {
            self.lemma_write_blocks_fit(id, data, n - 1);
            let mid = self.write_blocks(id, data, n - 1).0;
            mid.lemma_alloc_logical_fit(id, n - 1);
            lemma_fit_trans(
                self.bitmap,
                mid.bitmap,
                mid.alloc_logical_block(id, n - 1).0.bitmap,
            );
        }
    }

    /// The data blocks of a file that was written from nothing come in
    /// increasing order, all claimed by it.
    proof fn lemma_write_blocks_order(self, id: int, data: Seq<u8>, n: int)
        requires
            self.mapped(),
            0 <= id < self.inodes.len(),
            self.inodes[id].allocated,
            forall|j: int|
                j >= 0 ==> #[trigger] self.pointer(self.inodes[id], j) == NULL_BLOCK,
            n >= 0,
            self.write_blocks(id, data, n).1 is Ok,
        ensures
            ({
                let img = self.write_blocks(id, data, n).0;
                &&& forall|j: int|
                    0 <= j < n ==> {
                        let p = #[trigger] img.pointer(img.inodes[id], j);
                        p < img.bitmap.len() && img.bitmap[p as int] && !self.bitmap[p as int]
                    }
                &&& forall|j: int, k: int|
                    0 <= j < k < n ==> #[trigger] img.pointer(img.inodes[id], j)
                        < #[trigger] img.pointer(img.inodes[id], k)
            }),
        decreases n,
    {
        if n > 0 {
            self.lemma_write_blocks_order(id, data, n - 1);
            self.lemma_write_blocks(id, data, n - 1);
            self.lemma_write_blocks(id, data, n);
            self.lemma_write_blocks_fit(id, data, n - 1);
            let mid = self.write_blocks(id, data, n - 1).0;
            let img = self.write_blocks(id, data, n).0;
            assert(mid.pointer(mid.inodes[id], n - 1) == NULL_BLOCK);
            mid.lemma_alloc_logical(id, n - 1);
            mid.lemma_alloc_logical_fit(id, n - 1);
            let (mid2, r) = mid.alloc_logical_block(id, n - 1);
            let b: u32 = r->Ok_0;
            mid2.lemma_fill(id, n - 1, img.blocks[b as int]);
            assert forall|j: int| 0 <= j < n implies #[trigger] img.pointer(img.inodes[id], j)
                == if j == n - 1 {
                b
            } else {
                mid.pointer(mid.inodes[id], j)
            } by {
                assert(img.pointer(img.inodes[id], j) == mid2.pointer(mid2.inodes[id], j));
            }
            assert forall|j: int| 0 <= j < n implies {
                let p = #[trigger] img.pointer(img.inodes[id], j);
                p < img.bitmap.len() && img.bitmap[p as int] && !self.bitmap[p as int]
            } by {
                if j == n - 1 {
                    img.lemma_pointer_bound(id, j);
                    if self.bitmap[b as int] {
                        assert(mid.bitmap[b as int]);
                    }
                    mid2.lemma_pointer_bound(id, j);
                } else {
                    let p = mid.pointer(mid.inodes[id], j);
                    assert(mid.bitmap[p as int]);
                }
            }
            assert forall|j: int, k: int| 0 <= j < k < n implies #[trigger] img.pointer(
                img.inodes[id],
                j,
            ) < #[trigger] img.pointer(img.inodes[id], k) by {
                let p = mid.pointer(mid.inodes[id], j);
                if k == n - 1 {
                    assert(mid.bitmap[p as int] && !self.bitmap[p as int]);
                    assert(!mid.bitmap[b as int]);
                } else {
                    assert(p < mid.pointer(mid.inodes[id], k));
                }
            }
        }
    }

    proof fn lemma_add_fit(self, d: int, name: Seq<char>, target: u32)
        ensures
            first_fit(self.bitmap, self.add_entry(d, name, target).0.bitmap),
    {
        self.lemma_alloc_logical_fit(d, self.covered(self.inodes[d]));
    }

    proof fn lemma_make_fit(self, path: Seq<char>, kind: FileKind, at_root: ErrorView)
        ensures
            first_fit(self.bitmap, self.make(path, kind, at_root).0.bitmap),
    {
        if let Ok(Some((parts, name))) = split_last(path) {
            if let Ok(d) = self.vacancy(parts, name, path) {
                if let (mid, Ok(id)) = self.claim_inode(kind) {
                    mid.lemma_add_fit(d as int, name, id);
                }
            }
        }
    }
}

/// Making an entry, successful or not, frees no block, and claims only blocks
/// before all that are free afterwards.
pub proof fn law_make_first_fit(img: ImageView, path: Seq<char>)
    ensures
        first_fit(img.bitmap, img.create(path).0.bitmap),
        first_fit(img.bitmap, img.mkdir(path).0.bitmap),
{
    img.lemma_make_fit(path, FileKind::File, ErrorView::InvalidPath(path));
    img.lemma_make_fit(path, FileKind::Directory, ErrorView::AlreadyExists("/"@));
}

/// A write gives back the blocks that the file had, and then claims only blocks
/// before all that are free afterwards. Written data stand in blocks of
/// increasing numbers.
pub proof fn law_write_first_fit(img: ImageView, path: Seq<char>, data: Seq<u8>)
    requires
        img.orderly(),
        img.lookup(path) matches Ok(id) && img.inodes[id as int].kind == FileKind::File,
    ensures
        ({
            let id = img.lookup(path)->Ok_0 as int;
            let (after, r) = img.write(path, data);
            let node = after.inodes[id];
            &&& first_fit(img.truncated(id).bitmap, after.bitmap)
            &&& r is Ok ==> forall|j: int, k: int|
                0 <= j < k && after.pointer(node, k) != NULL_BLOCK ==> #[trigger] after.pointer(
                    node,
                    j,
                ) < #[trigger] after.pointer(node, k)
        }),
{
    let id: u32 = img.lookup(path)->Ok_0;
    let i = id as int;
    let (after, r) = img.write(path, data);
    let cleared = img.truncated(i);
    let n = ceil_div(data.len() as int, img.bs());
    img.lemma_resolve_in_use(split(path)->Ok_0);
    img.lemma_truncated(i);
    lemma_ceil_div(data.len() as int, img.bs(), 0);
    cleared.lemma_write_blocks_fit(i, data, n);
    if r is Ok {
        cleared.lemma_write_blocks(i, data, n);
        cleared.lemma_write_blocks_order(i, data, n);
        let stored = cleared.write_blocks(i, data, n).0;
        assert forall|j: int, k: int|
            0 <= j < k && after.pointer(after.inodes[i], k)
                != NULL_BLOCK implies #[trigger] after.pointer(after.inodes[i], j)
            < #[trigger] after.pointer(after.inodes[i], k) by {
            assert(after.pointer(after.inodes[i], j) == stored.pointer(stored.inodes[i], j));
            assert(after.pointer(after.inodes[i], k) == stored.pointer(stored.inodes[i], k));
        }
    }
}

} // verus!
