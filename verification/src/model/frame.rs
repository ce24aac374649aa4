//! What a change of one inode leaves unchanged.

use vstd::prelude::*;
use crate::codec::{lemma_with_word, with_word};
use crate::inode::{InodeView, DIRECT_POINTERS, NULL_BLOCK};
use crate::model::image::{lemma_ceil_div, lemma_first_clear, ImageView};

verus! {

impl ImageView {
    /// Inode `i` is the same in `img`, and so are the blocks that it owns.
    pub open spec fn keeps(self, img: ImageView, i: int) -> bool {
        &&& img.sb == self.sb
        &&& img.inodes.len() == self.inodes.len()
        &&& img.blocks.len() == self.blocks.len()
        &&& img.inodes[i] == self.inodes[i]
        &&& forall|s: int|
            0 <= s < self.field_count() && #[trigger] self.field(i, s) != NULL_BLOCK
                ==> img.blocks[self.field(i, s) as int] == self.blocks[self.field(i, s) as int]
    }

    /// All inodes but `id` are the same in `img`, and so are the blocks that
    /// they own.
    pub open spec fn keeps_others(self, img: ImageView, id: int) -> bool {
        &&& img.sb == self.sb
        &&& img.inodes.len() == self.inodes.len()
        &&& img.blocks.len() == self.blocks.len()
        &&& forall|i: int|
            0 <= i < self.inodes.len() && i != id ==> #[trigger] self.keeps(img, i)
    }

    /// `img` differs from this image by blocks that inode `id` has claimed and
    /// in what the blocks hold that it had not used before.
    pub open spec fn extends(self, img: ImageView, id: int) -> bool {
        &&& img.mapped()
        &&& self.keeps_others(img, id)
        &&& img.inodes[id] == InodeView {
            direct: img.inodes[id].direct,
            indirect: img.inodes[id].indirect,
            ..self.inodes[id]
        }
        &&& forall|k: int|
            k >= 0 && #[trigger] self.pointer(self.inodes[id], k) != NULL_BLOCK ==> {
                let p = self.pointer(self.inodes[id], k);
                &&& img.pointer(img.inodes[id], k) == p
                &&& img.blocks[p as int] == self.blocks[p as int]
            }
    }

    /// An inode that is the same has the same pointers, to the same contents.
    pub proof fn lemma_keeps(self, img: ImageView, i: int)
        requires
            self.shaped(),
            0 <= i < self.inodes.len(),
            self.inodes[i].allocated,
            self.keeps(img, i),
        ensures
            forall|s: int|
                0 <= s < self.field_count() ==> #[trigger] img.field(i, s) == self.field(i, s),
            forall|k: int|
                k >= 0 ==> #[trigger] img.pointer(img.inodes[i], k) == self.pointer(
                    self.inodes[i],
                    k,
                ),
            forall|k: int|
                k >= 0 && #[trigger] self.pointer(self.inodes[i], k) != NULL_BLOCK
                    ==> img.blocks[self.pointer(self.inodes[i], k) as int]
                    == self.blocks[self.pointer(self.inodes[i], k) as int],
            img.gather(i) == self.gather(i),
    {
        let node = self.inodes[i];
        assert(self.field(i, DIRECT_POINTERS as int) == node.indirect);
        assert forall|s: int| 0 <= s < self.field_count() implies #[trigger] img.field(i, s)
            == self.field(i, s) by {}
        assert forall|k: int| k >= 0 implies {
            &&& #[trigger] img.pointer(img.inodes[i], k) == self.pointer(node, k)
            &&& self.pointer(node, k) != NULL_BLOCK ==> img.blocks[self.pointer(node, k) as int]
                == self.blocks[self.pointer(node, k) as int]
        } by {
            self.lemma_pointer_field(i, k);
            if k < DIRECT_POINTERS {
                assert(self.field(i, k) == node.direct[k]);
            } else if k - DIRECT_POINTERS < self.words() {
                assert(self.field(i, k + 1) == self.pointer(node, k));
            }
        }
        assert forall|k: int| k >= 0 && #[trigger] self.pointer(node, k) != NULL_BLOCK implies
            img.blocks[self.pointer(node, k) as int] == self.blocks[self.pointer(
            node,
            k,
        ) as int] by {
            assert(img.pointer(img.inodes[i], k) == self.pointer(node, k));
        }
        assert(img.pointer_fields(node) =~= self.pointer_fields(node));
    }

    /// A directory that is the same has the same entries.
    pub proof fn lemma_keeps_scan(self, img: ImageView, i: int, k: int)
        requires
            self.shaped(),
            0 <= i < self.inodes.len(),
            self.inodes[i].allocated,
            self.keeps(img, i),
        ensures
            img.scan(img.inodes[i], k) == self.scan(self.inodes[i], k),
        decreases k,
    {
        if k > 0 {
            self.lemma_keeps(img, i);
            self.lemma_keeps_scan(img, i, k - 1);
            assert(img.pointer(img.inodes[i], k - 1) == self.pointer(self.inodes[i], k - 1));
        }
    }

    /// A directory that is the same can be listed as before.
    pub proof fn lemma_keeps_entries(self, img: ImageView, i: int)
        requires
            self.shaped(),
            0 <= i < self.inodes.len(),
            self.inodes[i].allocated,
            self.keeps(img, i),
        ensures
            img.entries(img.inodes[i]) == self.entries(self.inodes[i]),
    {
        self.lemma_keeps_scan(img, i, self.covered(self.inodes[i]));
    }

    /// A file that is the same misses the same block, if any.
    proof fn lemma_keeps_missing(self, img: ImageView, i: int, k: int)
        requires
            self.shaped(),
            0 <= i < self.inodes.len(),
            self.inodes[i].allocated,
            self.keeps(img, i),
            k >= 0,
        ensures
            img.first_missing_from(img.inodes[i], k) == self.first_missing_from(self.inodes[i], k),
        decreases self.covered(self.inodes[i]) - k,
    {
        self.lemma_keeps(img, i);
        assert(img.pointer(img.inodes[i], k) == self.pointer(self.inodes[i], k));
        if k < self.covered(self.inodes[i]) && self.pointer(self.inodes[i], k) != NULL_BLOCK {
            self.lemma_keeps_missing(img, i, k + 1);
        }
    }

    /// A file that is the same holds the same bytes.
    pub proof fn lemma_keeps_bytes(self, img: ImageView, i: u32)
        requires
            self.shaped(),
            self.bs() > 0,
            i < self.inodes.len(),
            self.inodes[i as int].allocated,
            self.keeps(img, i as int),
        ensures
            img.file_bytes(i) == self.file_bytes(i),
    {
        let node = self.inodes[i as int];
        self.lemma_keeps_missing(img, i as int, 0);
        self.lemma_keeps(img, i as int);
        self.lemma_first_missing(node, 0);
        if self.first_missing(node) >= self.covered(node) {
            let bs = self.bs();
            assert forall|p: int| 0 <= p < node.size implies #[trigger] img.contents(node)[p]
                == self.contents(node)[p] by {
                let k = p / bs;
                vstd::arithmetic::div_mod::lemma_fundamental_div_mod(p, bs);
                vstd::arithmetic::mul::lemma_mul_is_commutative(k, bs);
                vstd::arithmetic::div_mod::lemma_div_pos_is_pos(p, bs);
                lemma_ceil_div(node.size as int, bs, k);
                assert(self.pointer(node, k) != NULL_BLOCK);
                assert(img.pointer(img.inodes[i as int], k) == self.pointer(node, k));
            }
            assert(img.contents(node) =~= self.contents(node));
        }
    }

    /// Sameness carries over two changes.
    pub proof fn lemma_keeps_trans(self, mid: ImageView, img: ImageView, i: int)
        requires
            self.shaped(),
            0 <= i < self.inodes.len(),
            self.keeps(mid, i),
            mid.keeps(img, i),
        ensures
            self.keeps(img, i),
    {
        if self.inodes[i].allocated {
            self.lemma_keeps(mid, i);
            assert forall|s: int|
                0 <= s < self.field_count() && #[trigger] self.field(i, s) != NULL_BLOCK implies
                img.blocks[self.field(i, s) as int] == self.blocks[self.field(i, s) as int] by {
                assert(mid.field(i, s) == self.field(i, s));
            }
        }
    }

    /// Sameness of all inodes but one carries over two changes.
    pub proof fn lemma_keeps_others_trans(self, mid: ImageView, img: ImageView, id: int)
        requires
            self.shaped(),
            self.keeps_others(mid, id),
            mid.keeps_others(img, id),
        ensures
            self.keeps_others(img, id),
    {
        assert forall|i: int| 0 <= i < self.inodes.len() && i != id implies #[trigger] self.keeps(
            img,
            i,
        ) by {
            assert(self.keeps(mid, i) && mid.keeps(img, i));
            self.lemma_keeps_trans(mid, img, i);
        }
    }

    /// Extension carries over two changes.
    pub proof fn lemma_extends_trans(self, mid: ImageView, img: ImageView, id: int)
        requires
            self.shaped(),
            self.extends(mid, id),
            mid.extends(img, id),
        ensures
            self.extends(img, id),
    {
        self.lemma_keeps_others_trans(mid, img, id);
        assert forall|k: int|
            k >= 0 && #[trigger] self.pointer(self.inodes[id], k) != NULL_BLOCK implies {
            let p = self.pointer(self.inodes[id], k);
            &&& img.pointer(img.inodes[id], k) == p
            &&& img.blocks[p as int] == self.blocks[p as int]
        } by {
            assert(mid.pointer(mid.inodes[id], k) == self.pointer(self.inodes[id], k));
        }
    }

    /// A block that was free is owned by no inode.
    proof fn lemma_free_unowned(self, b: int)
        requires
            self.mapped(),
            0 <= b < self.bitmap.len(),
            !self.bitmap[b],
        ensures
            forall|i: int, s: int| self.is_field(i, s) ==> #[trigger] self.field(i, s) != b,
            forall|i: int|
                0 <= i < self.inodes.len() && #[trigger] self.inodes[i].allocated ==> {
                    &&& self.inodes[i].indirect != b
                    &&& self.inodes[i].indirect == NULL_BLOCK || self.inodes[i].indirect
                        < self.blocks.len()
                },
    {
        assert forall|i: int|
            0 <= i < self.inodes.len() && #[trigger] self.inodes[i].allocated implies {
            &&& self.inodes[i].indirect != b
            &&& self.inodes[i].indirect == NULL_BLOCK || self.inodes[i].indirect
                < self.blocks.len()
        } by {
            assert(self.is_field(i, DIRECT_POINTERS as int));
            assert(self.field(i, DIRECT_POINTERS as int) == self.inodes[i].indirect);
        }
    }

    /// The inodes but `id` keep what they own when a free block is changed.
    proof fn lemma_fresh_keeps(self, img: ImageView, id: int, b: int)
        requires
            self.mapped(),
            0 <= b < self.bitmap.len(),
            !self.bitmap[b],
            img.sb == self.sb,
            img.blocks.len() == self.blocks.len(),
            img.inodes.len() == self.inodes.len(),
            forall|i: int|
                0 <= i < self.inodes.len() && i != id ==> #[trigger] img.inodes[i]
                    == self.inodes[i],
            forall|c: int|
                0 <= c < self.blocks.len() && c != b ==> #[trigger] img.blocks[c]
                    == self.blocks[c],
        ensures
            self.keeps_others(img, id),
    {
        self.lemma_free_unowned(b);
        assert forall|i: int| 0 <= i < self.inodes.len() && i != id implies #[trigger] self.keeps(
            img,
            i,
        ) by {
            assert(img.inodes[i] == self.inodes[i]);
            assert forall|s: int|
                0 <= s < self.field_count() && #[trigger] self.field(i, s) != NULL_BLOCK implies
                img.blocks[self.field(i, s) as int] == self.blocks[self.field(i, s) as int] by {
                assert(self.is_field(i, s));
            }
        }
    }

    /// Claiming a block for a direct pointer.
    proof fn lemma_claim_direct(self, id: int, k: int)
        requires
            self.mapped(),
            0 <= id < self.inodes.len(),
            self.inodes[id].allocated,
            0 <= k < DIRECT_POINTERS,
            self.inodes[id].direct[k] == NULL_BLOCK,
            self.alloc_block().1 is Ok,
        ensures
            ({
                let (img, r) = self.alloc_logical_block(id, k);
                &&& r matches Ok(b) && b < self.blocks.len() && !self.bitmap[b as int] && img.pointer(
                    img.inodes[id],
                    k,
                ) == b
                &&& self.extends(img, id)
                &&& forall|j: int|
                    j >= 0 && j != k ==> #[trigger] img.pointer(img.inodes[id], j) == self.pointer(
                        self.inodes[id],
                        j,
                    )
            }),
    {
        lemma_first_clear(self.bitmap, 0);
        let node = self.inodes[id];
        let (img, r) = self.alloc_logical_block(id, k);
        assert(self.pointer(node, k) == NULL_BLOCK);
        let b: u32 = r->Ok_0;
        self.lemma_free_unowned(b as int);
        assert(img.shaped());
        assert(self.is_field(id, k));
        assert forall|i: int, s: int| self.is_field(i, s) implies #[trigger] img.field(i, s)
            == if i == id && s == k {
            b
        } else {
            self.field(i, s)
        } by {
            if self.inodes[i].allocated {
                assert(self.inodes[i].indirect != b);
            }
        }
        self.lemma_claimed(img, id, k, b as int);
        self.lemma_fresh_keeps(img, id, b as int);
        assert forall|j: int| j >= 0 && j != k implies #[trigger] img.pointer(img.inodes[id], j)
            == self.pointer(node, j) by {
            assert(node.indirect != b);
        }
        assert forall|j: int| j >= 0 && #[trigger] self.pointer(node, j) != NULL_BLOCK implies {
            let p = self.pointer(node, j);
            &&& img.pointer(img.inodes[id], j) == p
            &&& img.blocks[p as int] == self.blocks[p as int]
        } by {
            self.lemma_pointer_field(id, j);
            if j < DIRECT_POINTERS {
                assert(self.is_field(id, j));
                assert(self.field(id, j) != b);
            } else {
                assert(self.is_field(id, j + 1));
                assert(self.field(id, j + 1) != b);
            }
        }
    }

    /// Claiming a block of pointers.
    proof fn lemma_claim_indirect(self, id: int)
        requires
            self.mapped(),
            0 <= id < self.inodes.len(),
            self.inodes[id].allocated,
            self.inodes[id].indirect == NULL_BLOCK,
            self.alloc_block().1 is Ok,
        ensures
            ({
                let (img, r) = self.alloc_indirect(id);
                &&& r is Ok
                &&& self.extends(img, id)
                &&& img.inodes[id].indirect != NULL_BLOCK
                &&& forall|j: int|
                    j >= 0 ==> #[trigger] img.pointer(img.inodes[id], j) == self.pointer(
                        self.inodes[id],
                        j,
                    )
            }),
    {
        lemma_first_clear(self.bitmap, 0);
        let node = self.inodes[id];
        let (img, r) = self.alloc_indirect(id);
        let b: u32 = r->Ok_0;
        let s0 = DIRECT_POINTERS as int;
        self.lemma_free_unowned(b as int);
        assert(img.shaped());
        assert(self.is_field(id, s0));
        assert(img.blocks[b as int] == self.null_block());
        assert forall|i: int, s: int| self.is_field(i, s) implies #[trigger] img.field(i, s)
            == if i == id && s == s0 {
            b
        } else {
            self.field(i, s)
        } by {
            if i == id && s > s0 {
                self.lemma_null_block(s - s0 - 1);
            } else if self.inodes[i].allocated {
                assert(self.inodes[i].indirect != b);
            }
        }
        self.lemma_claimed(img, id, s0, b as int);
        self.lemma_fresh_keeps(img, id, b as int);
        assert forall|j: int| j >= 0 implies #[trigger] img.pointer(img.inodes[id], j)
            == self.pointer(node, j) by {
            if j >= DIRECT_POINTERS && j - DIRECT_POINTERS < self.words() {
                self.lemma_null_block(j - DIRECT_POINTERS);
            }
        }
        assert forall|j: int| j >= 0 && #[trigger] self.pointer(node, j) != NULL_BLOCK implies {
            let p = self.pointer(node, j);
            &&& img.pointer(img.inodes[id], j) == p
            &&& img.blocks[p as int] == self.blocks[p as int]
        } by {
            assert(img.pointer(img.inodes[id], j) == self.pointer(node, j));
            assert(self.is_field(id, j));
            assert(self.field(id, j) != b);
        }
    }

    /// Claiming a block behind the block of pointers.
    proof fn lemma_claim_behind(self, id: int, k: int)
        requires
            self.mapped(),
            0 <= id < self.inodes.len(),
            self.inodes[id].allocated,
            0 <= k - DIRECT_POINTERS < self.words(),
            self.inodes[id].indirect != NULL_BLOCK,
            self.pointer(self.inodes[id], k) == NULL_BLOCK,
            self.alloc_block().1 is Ok,
        ensures
            ({
                let (img, r) = self.alloc_behind_indirect(id, k);
                &&& r matches Ok(b) && b < self.blocks.len() && !self.bitmap[b as int] && img.pointer(
                    img.inodes[id],
                    k,
                ) == b
                &&& self.extends(img, id)
                &&& forall|j: int|
                    j >= 0 && j != k ==> #[trigger] img.pointer(img.inodes[id], j) == self.pointer(
                        self.inodes[id],
                        j,
                    )
            }),
    {
        lemma_first_clear(self.bitmap, 0);
        let node = self.inodes[id];
        let (img, r) = self.alloc_behind_indirect(id, k);
        let b: u32 = r->Ok_0;
        let s0 = k + 1;
        let t = node.indirect as int;
        let w = k - DIRECT_POINTERS;
        self.lemma_free_unowned(b as int);
        assert(self.is_field(id, DIRECT_POINTERS as int));
        assert(self.field(id, DIRECT_POINTERS as int) == node.indirect);
        assert(t < self.blocks.len() && t != b);
        let table = self.blocks[t];
        assert(img.inodes == self.inodes);
        assert(img.blocks[t] == with_word(table, w, b));
        lemma_with_word(table, w, b, w);
        assert(img.shaped());
        assert(self.is_field(id, s0));
        assert forall|i: int, s: int| self.is_field(i, s) implies #[trigger] img.field(i, s)
            == if i == id && s == s0 {
            b
        } else {
            self.field(i, s)
        } by {
            if self.inodes[i].allocated {
                let q = self.inodes[i].indirect;
                assert(q != b);
                assert(self.is_field(i, DIRECT_POINTERS as int));
                assert(self.field(i, DIRECT_POINTERS as int) == q);
                if i == id {
                    if s > DIRECT_POINTERS {
                        lemma_with_word(table, w, b, s - DIRECT_POINTERS - 1);
                    }
                } else if q != NULL_BLOCK {
                    assert(q != node.indirect);
                }
            }
        }
        self.lemma_claimed(img, id, s0, b as int);
        assert(self.keeps_others(img, id)) by {
            assert forall|i: int| 0 <= i < self.inodes.len() && i
                != id implies #[trigger] self.keeps(img, i) by {
                assert forall|s: int|
                    0 <= s < self.field_count() && #[trigger] self.field(i, s)
                        != NULL_BLOCK implies img.blocks[self.field(i, s) as int]
                    == self.blocks[self.field(i, s) as int] by {
                    assert(self.is_field(i, s));
                    assert(self.field(i, s) != b);
                    assert(self.field(i, s) != self.field(id, DIRECT_POINTERS as int));
                }
            }
        }
        assert forall|j: int| j >= 0 && j != k implies #[trigger] img.pointer(img.inodes[id], j)
            == self.pointer(node, j) by {
            if j >= DIRECT_POINTERS && j - DIRECT_POINTERS < self.words() {
                lemma_with_word(table, w, b, j - DIRECT_POINTERS);
            }
        }
        assert forall|j: int| j >= 0 && #[trigger] self.pointer(node, j) != NULL_BLOCK implies {
            let p = self.pointer(node, j);
            &&& img.pointer(img.inodes[id], j) == p
            &&& img.blocks[p as int] == self.blocks[p as int]
        } by {
            assert(img.pointer(img.inodes[id], j) == self.pointer(node, j));
            self.lemma_pointer_field(id, j);
            let s = if j < DIRECT_POINTERS {
                j
            } else {
                j + 1
            };
            assert(self.is_field(id, s));
            assert(self.field(id, s) == self.pointer(node, j));
            assert(self.field(id, s) != b);
            assert(self.field(id, s) != self.field(id, DIRECT_POINTERS as int));
        }
    }

    /// Claiming the `k`-th data block extends the inode by that block alone.
    pub proof fn lemma_alloc_logical(self, id: int, k: int)
        requires
            self.mapped(),
            0 <= id < self.inodes.len(),
            self.inodes[id].allocated,
            0 <= k,
            self.pointer(self.inodes[id], k) == NULL_BLOCK,
        ensures
            ({
                let (img, r) = self.alloc_logical_block(id, k);
                &&& self.extends(img, id)
                &&& r matches Ok(b) ==> b < self.blocks.len() && !self.bitmap[b as int]
                &&& img.pointer(img.inodes[id], k) == match r {
                    Ok(b) => b,
                    Err(_) => NULL_BLOCK,
                }
                &&& forall|j: int|
                    j >= 0 && j != k ==> #[trigger] img.pointer(img.inodes[id], j) == self.pointer(
                        self.inodes[id],
                        j,
                    )
            }),
    {
        lemma_first_clear(self.bitmap, 0);
        let node = self.inodes[id];
        if self.alloc_block().1 is Ok {
            if k < DIRECT_POINTERS {
                self.lemma_claim_direct(id, k);
            } else if k - DIRECT_POINTERS < self.words() {
                if node.indirect == NULL_BLOCK {
                    self.lemma_claim_indirect(id);
                    let mid = self.alloc_indirect(id).0;
                    assert(mid.pointer(mid.inodes[id], k) == self.pointer(node, k));
                    if mid.alloc_block().1 is Ok {
                        mid.lemma_claim_behind(id, k);
                        let img = mid.alloc_behind_indirect(id, k).0;
                        self.lemma_extends_trans(mid, img, id);
                        assert forall|j: int| j >= 0 && j != k implies #[trigger] img.pointer(
                            img.inodes[id],
                            j,
                        ) == self.pointer(node, j) by {
                            assert(mid.pointer(mid.inodes[id], j) == self.pointer(node, j));
                        }
                    }
                } else {
                    self.lemma_claim_behind(id, k);
                }
            }
        }
    }

    /// Filling a data block of an inode changes nothing else.
    pub proof fn lemma_fill(self, id: int, k: int, data: Seq<u8>)
        requires
            self.mapped(),
            0 <= id < self.inodes.len(),
            self.inodes[id].allocated,
            0 <= k,
            self.pointer(self.inodes[id], k) != NULL_BLOCK,
            data.len() == self.bs(),
        ensures
            ({
                let b = self.pointer(self.inodes[id], k) as int;
                let img = self.with_block(b, data);
                &&& img.mapped()
                &&& b < self.blocks.len()
                &&& self.keeps_others(img, id)
                &&& forall|j: int|
                    j >= 0 ==> #[trigger] img.pointer(img.inodes[id], j) == self.pointer(
                        self.inodes[id],
                        j,
                    )
                &&& forall|j: int|
                    j >= 0 && j != k && #[trigger] self.pointer(self.inodes[id], j) != NULL_BLOCK
                        ==> self.pointer(self.inodes[id], j) != b
                &&& img.gather(id) == self.gather(id)
            }),
    {
        let node = self.inodes[id];
        let p = self.pointer(node, k);
        let b = p as int;
        let img = self.with_block(b, data);
        self.lemma_pointer_field(id, k);
        let s0 = if k < DIRECT_POINTERS {
            k
        } else {
            k + 1
        };
        assert(self.is_field(id, s0) && self.field(id, s0) == p);
        assert(img.shaped());
        assert forall|i: int|
            0 <= i < self.inodes.len() && #[trigger] self.inodes[i].allocated implies {
            &&& self.inodes[i].indirect != p
            &&& self.inodes[i].indirect == NULL_BLOCK || self.inodes[i].indirect
                < self.blocks.len()
        } by {
            assert(self.is_field(i, DIRECT_POINTERS as int));
            assert(self.field(i, DIRECT_POINTERS as int) == self.inodes[i].indirect);
        }
        assert forall|i: int, s: int| self.is_field(i, s) implies #[trigger] img.field(i, s)
            == self.field(i, s) by {
            if self.inodes[i].allocated {
                assert(self.inodes[i].indirect != p);
            }
        }
        self.lemma_same_fields(img);
        assert forall|i: int| 0 <= i < self.inodes.len() && i != id implies #[trigger] self.keeps(
            img,
            i,
        ) by {
            assert forall|s: int|
                0 <= s < self.field_count() && #[trigger] self.field(i, s) != NULL_BLOCK implies
                img.blocks[self.field(i, s) as int] == self.blocks[self.field(i, s) as int] by {
                assert(self.is_field(i, s));
                assert(self.field(i, s) != self.field(id, s0));
            }
        }
        assert forall|j: int| j >= 0 implies {
            &&& #[trigger] img.pointer(img.inodes[id], j) == self.pointer(node, j)
            &&& j != k && self.pointer(node, j) != NULL_BLOCK ==> self.pointer(node, j) != b
        } by {
            self.lemma_pointer_field(id, j);
            let s = if j < DIRECT_POINTERS {
                j
            } else {
                j + 1
            };
            if self.pointer(node, j) != NULL_BLOCK {
                assert(self.is_field(id, s));
                assert(self.field(id, s) == self.pointer(node, j));
            }
        }
        assert forall|j: int|
            j >= 0 && j != k && #[trigger] self.pointer(node, j) != NULL_BLOCK implies self.pointer(
            node,
            j,
        ) != b by {
            assert(img.pointer(img.inodes[id], j) == self.pointer(node, j));
        }
    }

    /// Changing the size of an inode keeps its pointers.
    pub proof fn lemma_resize(self, id: int, size: u64)
        requires
            self.mapped(),
            0 <= id < self.inodes.len(),
            self.inodes[id].allocated,
        ensures
            ({
                let img = self.with_inode(id, InodeView { size, ..self.inodes[id] });
                &&& img.mapped()
                &&& self.keeps_others(img, id)
                &&& forall|j: int|
                    j >= 0 ==> #[trigger] img.pointer(img.inodes[id], j) == self.pointer(
                        self.inodes[id],
                        j,
                    )
            }),
    {
        let img = self.with_inode(id, InodeView { size, ..self.inodes[id] });
        assert(img.shaped());
        assert forall|i: int, s: int| self.is_field(i, s) implies #[trigger] img.field(i, s)
            == self.field(i, s) by {}
        self.lemma_same_fields(img);
        assert forall|i: int| 0 <= i < self.inodes.len() && i != id implies #[trigger] self.keeps(
            img,
            i,
        ) by {}
    }

    /// Emptying an inode gives back its blocks and changes nothing else.
    pub proof fn lemma_truncated(self, id: int)
        requires
            self.mapped(),
            0 <= id < self.inodes.len(),
            self.inodes[id].allocated,
        ensures
            self.truncated(id).mapped(),
            self.keeps_others(self.truncated(id), id),
            forall|j: int|
                j >= 0 ==> #[trigger] self.truncated(id).pointer(self.truncated(id).inodes[id], j)
                    == NULL_BLOCK,
    {
        let img = self.truncated(id);
        assert(img.shaped());
        assert forall|i: int, s: int| self.is_field(i, s) implies #[trigger] img.field(i, s)
            == if i == id {
            NULL_BLOCK
        } else {
            self.field(i, s)
        } by {}
        self.lemma_released(img, id);
        assert forall|i: int| 0 <= i < self.inodes.len() && i != id implies #[trigger] self.keeps(
            img,
            i,
        ) by {}
    }

    /// Giving back an inode gives back its blocks and changes nothing else.
    pub proof fn lemma_freed(self, id: u32)
        requires
            self.mapped(),
            id < self.inodes.len(),
        ensures
            self.free_inode(id).mapped(),
            self.keeps_others(self.free_inode(id), id as int),
    {
        let img = self.free_inode(id);
        assert(img.shaped());
        assert forall|i: int, s: int| self.is_field(i, s) implies #[trigger] img.field(i, s)
            == if i == id {
            NULL_BLOCK
        } else {
            self.field(i, s)
        } by {}
        self.lemma_released(img, id as int);
        assert forall|i: int| 0 <= i < self.inodes.len() && i != id implies #[trigger] self.keeps(
            img,
            i,
        ) by {}
    }
}

} // verus!
