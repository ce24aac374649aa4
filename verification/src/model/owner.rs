//! Which inode owns which block.

use vstd::prelude::*;
use crate::codec::word;
use crate::inode::{DIRECT_POINTERS, NULL_BLOCK};
use crate::model::image::{live, names_block, released, ImageView};

verus! {

impl ImageView {
    /// The number of pointer fields of an inode: the direct pointers, the
    /// indirect block, and the pointers that it stores.
    pub open spec fn field_count(self) -> int {
        DIRECT_POINTERS + 1 + self.words()
    }

    /// The `s`-th pointer field of inode `i`, if that inode is in use.
    pub open spec fn field(self, i: int, s: int) -> u32 {
        let node = self.inodes[i];
        if !node.allocated {
            NULL_BLOCK
        } else if s < DIRECT_POINTERS {
            node.direct[s]
        } else if s == DIRECT_POINTERS {
            node.indirect
        } else if node.indirect == NULL_BLOCK {
            NULL_BLOCK
        } else {
            word(self.blocks[node.indirect as int], s - DIRECT_POINTERS - 1)
        }
    }

    /// There is an `s`-th pointer field of inode `i`.
    pub open spec fn is_field(self, i: int, s: int) -> bool {
        0 <= i < self.inodes.len() && 0 <= s < self.field_count()
    }

    /// Inode `i` owns block `b`.
    pub open spec fn owns(self, i: int, b: int) -> bool {
        b != NULL_BLOCK && exists|s: int|
            0 <= s < self.field_count() && #[trigger] self.field(i, s) == b
    }

    /// Pointers lead to blocks of the image that are marked used.
    pub open spec fn fields_marked(self) -> bool {
        forall|i: int, s: int|
            self.is_field(i, s) && #[trigger] self.field(i, s) != NULL_BLOCK ==> self.field(i, s)
                < self.blocks.len() && self.bitmap[self.field(i, s) as int]
    }

    /// No two pointers lead to the same block.
    pub open spec fn fields_distinct(self) -> bool {
        forall|i: int, s: int, j: int, t: int|
            self.is_field(i, s) && self.is_field(j, t) && #[trigger] self.field(i, s)
                == #[trigger] self.field(j, t) && self.field(i, s) != NULL_BLOCK ==> i == j && s
                == t
    }

    /// Every block marked used has an owner.
    pub open spec fn blocks_owned(self) -> bool {
        forall|b: int|
            0 <= b < self.bitmap.len() && #[trigger] self.bitmap[b] ==> exists|i: int|
                0 <= i < self.inodes.len() && #[trigger] self.owns(i, b)
    }

    /// The pointers and the bitmap agree: a block is marked used exactly if
    /// one pointer leads to it, and no more than one does.
    pub open spec fn mapped(self) -> bool {
        &&& self.shaped()
        &&& self.bs() > 0
        &&& self.fields_marked()
        &&& self.fields_distinct()
        &&& self.blocks_owned()
    }

    /// The pointer to the `k`-th data block is a pointer field.
    pub proof fn lemma_pointer_field(self, i: int, k: int)
        requires
            self.shaped(),
            0 <= i < self.inodes.len(),
            self.inodes[i].allocated,
            0 <= k,
        ensures
            self.pointer(self.inodes[i], k) == if k < DIRECT_POINTERS {
                self.field(i, k)
            } else if k - DIRECT_POINTERS < self.words() {
                self.field(i, k + 1)
            } else {
                NULL_BLOCK
            },
    {
    }

    /// The blocks that an inode refers to are those that it owns.
    pub proof fn lemma_gather(self, i: int, b: int)
        requires
            self.shaped(),
            0 <= i < self.inodes.len(),
        ensures
            names_block(self.gather(i), b) <==> self.owns(i, b),
    {
        let node = self.inodes[i];
        let fields = self.pointer_fields(node);
        if node.allocated {
            lemma_live_names(fields, b);
            if names_block(self.gather(i), b) {
                let s = choose|s: int| 0 <= s < fields.len() && #[trigger] fields[s] == b;
                assert(self.field(i, s) == fields[s]);
            }
            if self.owns(i, b) {
                let s = choose|s: int|
                    0 <= s < self.field_count() && #[trigger] self.field(i, s) == b;
                assert(fields[s] == self.field(i, s));
            }
        }
    }

    /// The block `b` was free and is now the block that field `s0` of inode
    /// `id` names; nothing else changed.
    pub open spec fn claimed_in(self, img: ImageView, id: int, s0: int, b: int) -> bool {
        &&& self.is_field(id, s0)
        &&& self.field(id, s0) == NULL_BLOCK
        &&& 0 <= b < self.blocks.len()
        &&& !self.bitmap[b]
        &&& img.bitmap == self.bitmap.update(b, true)
        &&& img.sb == self.sb
        &&& forall|i: int, s: int|
            self.is_field(i, s) ==> #[trigger] img.field(i, s) == if i == id && s == s0 {
                b as u32
            } else {
                self.field(i, s)
            }
    }

    /// Claiming a free block keeps pointers and bitmap in agreement.
    pub proof fn lemma_claimed(self, img: ImageView, id: int, s0: int, b: int)
        requires
            self.mapped(),
            img.shaped(),
            self.claimed_in(img, id, s0, b),
        ensures
            img.mapped(),
    {
        assert forall|i: int, s: int|
            img.is_field(i, s) && #[trigger] img.field(i, s) != NULL_BLOCK implies img.field(i, s)
            < img.blocks.len() && img.bitmap[img.field(i, s) as int] by {
            assert(self.is_field(i, s));
            let f = self.field(i, s);
        }
        assert forall|i: int, s: int, j: int, t: int|
            img.is_field(i, s) && img.is_field(j, t) && #[trigger] img.field(i, s)
                == #[trigger] img.field(j, t) && img.field(i, s) != NULL_BLOCK implies i == j && s
            == t by {
            assert(self.is_field(i, s) && self.is_field(j, t));
            let f = self.field(i, s);
            let g = self.field(j, t);
        }
        assert forall|c: int| 0 <= c < img.bitmap.len() && #[trigger] img.bitmap[c] implies exists|
            i: int,
        |
            0 <= i < img.inodes.len() && #[trigger] img.owns(i, c) by {
            if c == b {
                assert(img.field(id, s0) == b);
                assert(img.owns(id, c));
            } else {
                assert(self.bitmap[c]);
                let i = choose|i: int| 0 <= i < self.inodes.len() && #[trigger] self.owns(i, c);
                let s = choose|s: int|
                    0 <= s < self.field_count() && #[trigger] self.field(i, s) == c;
                assert(self.is_field(i, s));
                assert(img.field(i, s) == c);
                assert(img.owns(i, c));
            }
        }
    }

    /// The fields of inode `id` were cleared and its blocks given back; nothing
    /// else changed.
    pub open spec fn released_in(self, img: ImageView, id: int) -> bool {
        &&& 0 <= id < self.inodes.len()
        &&& img.bitmap == released(self.bitmap, self.gather(id))
        &&& img.sb == self.sb
        &&& forall|i: int, s: int|
            self.is_field(i, s) ==> #[trigger] img.field(i, s) == if i == id {
                NULL_BLOCK
            } else {
                self.field(i, s)
            }
    }

    /// Giving back the blocks of an inode keeps pointers and bitmap in
    /// agreement.
    pub proof fn lemma_released(self, img: ImageView, id: int)
        requires
            self.mapped(),
            img.shaped(),
            self.released_in(img, id),
        ensures
            img.mapped(),
    {
        assert forall|i: int, s: int|
            img.is_field(i, s) && #[trigger] img.field(i, s) != NULL_BLOCK implies img.field(i, s)
            < img.blocks.len() && img.bitmap[img.field(i, s) as int] by {
            assert(self.is_field(i, s));
            let f = self.field(i, s);
            self.lemma_gather(id, f as int);
            if self.owns(id, f as int) {
                let t = choose|t: int|
                    0 <= t < self.field_count() && #[trigger] self.field(id, t) == f;
                assert(self.is_field(id, t));
            }
        }
        assert forall|i: int, s: int, j: int, t: int|
            img.is_field(i, s) && img.is_field(j, t) && #[trigger] img.field(i, s)
                == #[trigger] img.field(j, t) && img.field(i, s) != NULL_BLOCK implies i == j && s
            == t by {
            assert(self.is_field(i, s) && self.is_field(j, t));
            let f = self.field(i, s);
            let g = self.field(j, t);
        }
        assert forall|c: int| 0 <= c < img.bitmap.len() && #[trigger] img.bitmap[c] implies exists|
            i: int,
        |
            0 <= i < img.inodes.len() && #[trigger] img.owns(i, c) by {
            assert(self.bitmap[c]);
            let i = choose|i: int| 0 <= i < self.inodes.len() && #[trigger] self.owns(i, c);
            self.lemma_gather(id, c);
            let s = choose|s: int| 0 <= s < self.field_count() && #[trigger] self.field(i, s) == c;
            assert(self.is_field(i, s));
            assert(img.field(i, s) == c);
            assert(img.owns(i, c));
        }
    }

    /// An image with the same pointers and bitmap keeps them in agreement.
    pub proof fn lemma_same_fields(self, img: ImageView)
        requires
            self.mapped(),
            img.shaped(),
            img.sb == self.sb,
            img.bitmap == self.bitmap,
            forall|i: int, s: int|
                self.is_field(i, s) ==> #[trigger] img.field(i, s) == self.field(i, s),
        ensures
            img.mapped(),
    {
        assert forall|i: int, s: int|
            img.is_field(i, s) && #[trigger] img.field(i, s) != NULL_BLOCK implies img.field(i, s)
            < img.blocks.len() && img.bitmap[img.field(i, s) as int] by {
            assert(self.is_field(i, s));
            let f = self.field(i, s);
        }
        assert forall|i: int, s: int, j: int, t: int|
            img.is_field(i, s) && img.is_field(j, t) && #[trigger] img.field(i, s)
                == #[trigger] img.field(j, t) && img.field(i, s) != NULL_BLOCK implies i == j && s
            == t by {
            assert(self.is_field(i, s) && self.is_field(j, t));
            let f = self.field(i, s);
            let g = self.field(j, t);
        }
        assert forall|c: int| 0 <= c < img.bitmap.len() && #[trigger] img.bitmap[c] implies exists|
            i: int,
        |
            0 <= i < img.inodes.len() && #[trigger] img.owns(i, c) by {
            assert(self.bitmap[c]);
            let i = choose|i: int| 0 <= i < self.inodes.len() && #[trigger] self.owns(i, c);
            let s = choose|s: int| 0 <= s < self.field_count() && #[trigger] self.field(i, s) == c;
            assert(self.is_field(i, s));
            assert(img.field(i, s) == c);
            assert(img.owns(i, c));
        }
    }
}

/// The pointers in use are the pointers that lead somewhere.
pub proof fn lemma_live_names(s: Seq<u32>, b: int)
    ensures
        names_block(live(s), b) <==> b != NULL_BLOCK && names_block(s, b),
    decreases s.len(),
{
    if s.len() > 0 {
        let head = s.drop_last();
        lemma_live_names(head, b);
        lemma_names_push(head, s.last(), b);
        lemma_names_push(live(head), s.last(), b);
        assert(head.push(s.last()) =~= s);
    }
}

/// One more pointer names one more block.
pub proof fn lemma_names_push(ptrs: Seq<u32>, p: u32, b: int)
    ensures
        names_block(ptrs.push(p), b) <==> names_block(ptrs, b) || p == b,
{
    if names_block(ptrs, b) {
        let j = choose|j: int| 0 <= j < ptrs.len() && #[trigger] ptrs[j] == b;
        assert(ptrs.push(p)[j] == b);
    }
    if p == b {
        assert(ptrs.push(p)[ptrs.len() as int] == b);
    }
    if names_block(ptrs.push(p), b) {
        let j = choose|j: int| 0 <= j < ptrs.push(p).len() && #[trigger] ptrs.push(p)[j] == b;
        if j < ptrs.len() {
            assert(ptrs[j] == b);
        }
    }
}

} // verus!
