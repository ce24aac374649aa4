//! Writing a file in any image, also in one whose tables do not agree.

use vstd::prelude::*;
use crate::block::largest_file;
use crate::codec::lemma_with_word;
use crate::error::ErrorView;
use crate::inode::{FileKind, InodeView, NULL_BLOCK};
use crate::laws::blocks::refers;
use crate::model::image::{ceil_div, lemma_ceil_div, lemma_first_clear, ImageView};
use crate::model::tree::data_block;

verus! {

impl ImageView {
    /// The pointer `p` leads to a block in use.
    pub open spec fn leads_to_used(self, p: u32) -> bool {
        p < self.bitmap.len() && self.bitmap[p as int]
    }

    /// The inodes of `img` are those of this image, but for the pointers of inode
    /// `id`.
    pub open spec fn repointed(self, img: ImageView, id: int) -> bool {
        let node = img.inodes[id];
        &&& img.inodes.len() == self.inodes.len()
        &&& forall|i: int|
            0 <= i < self.inodes.len() && i != id ==> #[trigger] img.inodes[i] == self.inodes[i]
        &&& node == (InodeView {
            direct: node.direct,
            indirect: node.indirect,
            ..self.inodes[id]
        })
    }

    /// The blocks of `img` that `node` refers to are in use; all others are as in
    /// this image.
    pub open spec fn claims_only(self, img: ImageView, node: InodeView) -> bool {
        &&& img.bitmap.len() == self.bitmap.len()
        &&& forall|b: int|
            0 <= b < img.bitmap.len() ==> {
                &&& #[trigger] img.bitmap[b] == (self.bitmap[b] || refers(img, node, b))
                &&& !refers(img, node, b) ==> img.blocks[b] == self.blocks[b]
            }
    }

    /// `img` differs from this image in inode `id`, to which `n` data blocks
    /// were given that hold the first `n` blocks of `data`.
    pub open spec fn stored(self, img: ImageView, id: int, data: Seq<u8>, n: int) -> bool {
        let node = img.inodes[id];
        &&& img.shaped()
        &&& img.sb == self.sb
        &&& self.repointed(img, id)
        &&& node.indirect == NULL_BLOCK <==> n <= 12
        &&& node.indirect != NULL_BLOCK ==> img.leads_to_used(node.indirect)
        &&& forall|j: int|
            0 <= j < n ==> {
                let p = #[trigger] img.pointer(node, j);
                &&& p != NULL_BLOCK
                &&& p != node.indirect
                &&& img.leads_to_used(p)
                &&& img.blocks[p as int] == data_block(data, j, self.bs())
            }
        &&& forall|j: int| j >= n ==> #[trigger] img.pointer(node, j) == NULL_BLOCK
        &&& self.claims_only(img, node)
    }

    /// Giving inode `id` one data block more, which holds the next block of
    /// `data`.
    proof fn lemma_store_next(self, img: ImageView, id: int, data: Seq<u8>, k: int)
        requires
            self.stored(img, id, data, k),
            0 <= id < self.inodes.len(),
            0 <= k < 12 + self.bs() / 4,
        ensures
            ({
                let (mid, r) = img.alloc_logical_block(id, k);
                let cost = if k == 12 {
                    2int
                } else {
                    1int
                };
                match r {
                    Ok(b) => {
                        let next = mid.with_block(b as int, data_block(data, k, self.bs()));
                        &&& img.free_blocks() >= cost
                        &&& next.free_blocks() == img.free_blocks() - cost
                        &&& self.stored(next, id, data, k + 1)
                    },
                    Err(e) => {
                        &&& e == ErrorView::OutOfSpace
                        &&& img.free_blocks() < cost
                        &&& self.repointed(mid, id)
                    },
                }
            }),
    {
        let node = img.inodes[id];
        let (mid, r) = img.alloc_logical_block(id, k);
        assert(img.pointer(node, k) == NULL_BLOCK);
        img.lemma_alloc_space();
        lemma_first_clear(img.bitmap, 0);
        if k >= 12 && node.indirect == NULL_BLOCK {
            let (img1, r1) = img.alloc_indirect(id);
            img1.lemma_alloc_space();
            lemma_first_clear(img1.bitmap, 0);
        }
        if let Ok(b) = r {
            let next = mid.with_block(b as int, data_block(data, k, self.bs()));
            let new = next.inodes[id];
            assert(next.shaped());
            assert(new.indirect != b);
            assert(next.leads_to_used(b));
            assert forall|j: int| j >= 0 implies #[trigger] next.pointer(new, j) == if j == k {
                b
            } else {
                img.pointer(node, j)
            } by {
                if 12 <= j < 12 + self.bs() / 4 && k >= 12 {
                    let table = new.indirect as int;
                    if k == 12 {
                        img.lemma_null_block(j - 12);
                        lemma_with_word(img.null_block(), 0, b, j - 12);
                    } else {
                        lemma_with_word(img.blocks[table], k - 12, b, j - 12);
                    }
                }
            }
            assert forall|j: int| 0 <= j < k + 1 implies {
                let p = #[trigger] next.pointer(new, j);
                &&& p != NULL_BLOCK
                &&& p != new.indirect
                &&& next.leads_to_used(p)
                &&& next.blocks[p as int] == data_block(data, j, self.bs())
            } by {
                if j < k {
                    let p = img.pointer(node, j);
                    assert(next.pointer(new, j) == p);
                    assert(img.leads_to_used(p));
                }
            }
            assert forall|j: int| j >= k + 1 implies #[trigger] next.pointer(new, j)
                == NULL_BLOCK by {
                assert(img.pointer(node, j) == NULL_BLOCK);
            }
            assert forall|c: int| 0 <= c < next.bitmap.len() implies {
                &&& #[trigger] next.bitmap[c] == (self.bitmap[c] || refers(next, new, c))
                &&& !refers(next, new, c) ==> next.blocks[c] == self.blocks[c]
            } by {
                assert(img.bitmap[c] == (self.bitmap[c] || refers(img, node, c)));
                assert(next.pointer(new, k) == b);
                if refers(img, node, c) && c != node.indirect {
                    let j = choose|j: int|
                        0 <= j < 12 + img.bs() / 4 && #[trigger] img.pointer(node, j) == c;
                    assert(next.pointer(new, j) == c);
                }
                if refers(next, new, c) && c != new.indirect && c != b {
                    let j = choose|j: int|
                        0 <= j < 12 + next.bs() / 4 && #[trigger] next.pointer(new, j) == c;
                    assert(img.pointer(node, j) == c);
                }
            }
            assert(self.claims_only(next, new));
            assert(self.repointed(next, id));
            assert(self.stored(next, id, data, k + 1));
        }
    }

    /// The size of an inode does not matter for what it refers to.
    proof fn lemma_resized_claims(self, img: ImageView, id: int, size: u64)
        requires
            0 <= id < img.inodes.len(),
            self.claims_only(img, img.inodes[id]),
        ensures
            ({
                let node = InodeView { size, ..img.inodes[id] };
                self.claims_only(img.with_inode(id, node), node)
            }),
    {
        let old_node = img.inodes[id];
        let node = InodeView { size, ..old_node };
        let after = img.with_inode(id, node);
        assert forall|b: int| 0 <= b < after.bitmap.len() implies {
            &&& #[trigger] after.bitmap[b] == (self.bitmap[b] || refers(after, node, b))
            &&& !refers(after, node, b) ==> after.blocks[b] == self.blocks[b]
        } by {
            assert(img.bitmap[b] == (self.bitmap[b] || refers(img, old_node, b)));
            if refers(after, node, b) && b != node.indirect {
                let j = choose|j: int|
                    0 <= j < 12 + after.bs() / 4 && #[trigger] after.pointer(node, j) == b;
                assert(img.pointer(old_node, j) == b);
            }
            if refers(img, old_node, b) && b != node.indirect {
                let j = choose|j: int|
                    0 <= j < 12 + img.bs() / 4 && #[trigger] img.pointer(old_node, j) == b;
                assert(after.pointer(node, j) == b);
            }
        }
    }

    /// Storing the first `n` blocks of `data` in an inode without pointers.
    proof fn lemma_store_all(self, id: int, data: Seq<u8>, n: int)
        requires
            self.stored(self, id, data, 0),
            0 <= id < self.inodes.len(),
            0 <= n <= 12 + self.bs() / 4,
        ensures
            ({
                let (img, r) = self.write_blocks(id, data, n);
                let cost = if n > 12 {
                    n + 1
                } else {
                    n
                };
                match r {
                    Ok(()) => {
                        &&& self.free_blocks() >= cost
                        &&& img.free_blocks() == self.free_blocks() - cost
                        &&& self.stored(img, id, data, n)
                    },
                    Err(e) => {
                        &&& e == ErrorView::OutOfSpace
                        &&& self.free_blocks() < cost
                        &&& self.repointed(img, id)
                    },
                }
            }),
        decreases n,
    {
        if n > 0 {
            self.lemma_store_all(id, data, n - 1);
            let (img, r) = self.write_blocks(id, data, n - 1);
            if r is Ok {
                self.lemma_store_next(img, id, data, n - 1);
            }
        }
    }
}

/// When writing a file inode succeeds, in any image: the blocks that it had are
/// given back first, and then those that the data need must be free. The file
/// then reads as the data, what it refers to is in use, and all other blocks
/// are as they were. On a failure it is empty. Either way it keeps its
/// number, its kind and its links, and no other inode changes.
pub proof fn law_write_anywhere(img: ImageView, path: Seq<char>, id: u32, data: Seq<u8>, n: int)
    requires
        img.shaped(),
        img.bs() > 0,
        id < img.inodes.len(),
        img.lookup(path) == Ok::<u32, ErrorView>(id),
        img.inodes[id as int].kind == FileKind::File,
        0 <= n,
        data.len() <= n * img.bs(),
        n > 0 ==> (n - 1) * img.bs() < data.len(),
    ensures
        ({
            let (after, r) = img.write(path, data);
            let have = img.truncated(id as int).free_blocks();
            let need = if n > 12 {
                n + 1
            } else {
                n
            };
            &&& r == if data.len() > 12 * img.bs() + (img.bs() / 4) * img.bs() {
                Err::<nat, ErrorView>(ErrorView::FileTooLarge)
            } else if need <= have {
                Ok::<nat, ErrorView>(data.len())
            } else {
                Err::<nat, ErrorView>(ErrorView::OutOfSpace)
            }
            &&& r is Ok ==> {
                &&& after.free_blocks() == have - need
                &&& after.file_bytes(id) == Ok::<Seq<u8>, ErrorView>(data)
                &&& after.inodes[id as int].size == data.len()
                &&& img.truncated(id as int).claims_only(after, after.inodes[id as int])
            }
            &&& r is Err ==> after.inodes[id as int].size == 0
            &&& after.inodes.len() == img.inodes.len()
            &&& after.inodes[id as int].id == img.inodes[id as int].id
            &&& after.inodes[id as int].kind == FileKind::File
            &&& after.inodes[id as int].link_count == img.inodes[id as int].link_count
            &&& after.inodes[id as int].allocated == img.inodes[id as int].allocated
            &&& forall|i: int|
                0 <= i < img.inodes.len() && i != id ==> #[trigger] after.inodes[i] == img.inodes[i]
        }),
{
    let i = id as int;
    let bs = img.bs();
    let len = data.len() as int;
    let cleared = img.truncated(i);
    assert(cleared.shaped());
    assert(cleared.stored(cleared, i, data, 0));
    lemma_ceil_div(len, bs, n);
    lemma_ceil_div(len, bs, n - 1);
    lemma_ceil_div(len, bs, 0);
    if n == 0 {
        assert(0 * bs == 0) by (nonlinear_arith);
    }
    assert(n == ceil_div(len, bs));
    if len <= largest_file(bs) {
        let limit = 12 + bs / 4;
        lemma_ceil_div(len, bs, limit);
        assert(limit * bs == largest_file(bs)) by (nonlinear_arith)
            requires
                limit == 12 + bs / 4,
                largest_file(bs) == 12 * bs + (bs / 4) * bs,
        ;
        cleared.lemma_store_all(i, data, n);
        let (stored, r1) = cleared.write_blocks(i, data, n);
        if r1 is Ok {
            let after = img.write(path, data).0;
            crate::laws::write::lemma_largest_file(bs);
            assert forall|j: int| 0 <= j < n implies {
                let p = #[trigger] after.pointer(after.inodes[i], j);
                p != NULL_BLOCK && after.blocks[p as int] == data_block(data, j, bs)
            } by {
                assert(after.pointer(after.inodes[i], j) == stored.pointer(stored.inodes[i], j));
            }
            after.lemma_stored_bytes(id, data);
            cleared.lemma_resized_claims(stored, i, data.len() as u64);
        }
    }
}

} // verus!
