//! A change of one directory entry, and what it leaves unchanged.

use vstd::prelude::*;
use vstd::utf8::encode_utf8;
use crate::block::INODE_COUNT;
use crate::codec::splice;
use crate::error::{ErrorView, Outcome};
use crate::inode::{InodeView, DIRECT_POINTERS, NULL_BLOCK};
use crate::model::dir::{first_entry_block, slot};
use crate::model::entry::{
    decode_entry, empty_entry, entry_bytes, fits_slot, law_entry_roundtrip, used_entry, EntryView,
};
use crate::model::image::{zeros, ImageView};
use crate::path::proper_name;

verus! {

/// The placeholder entry reads back as itself.
pub proof fn lemma_empty_entry()
    ensures
        decode_entry(entry_bytes(empty_entry())) == Ok::<EntryView, ErrorView>(empty_entry()),
        entry_bytes(empty_entry()) == zeros(68),
{
    assert(encode_utf8(empty_entry().name) =~= Seq::empty());
    law_entry_roundtrip(empty_entry());
    assert(entry_bytes(empty_entry()) =~= zeros(68));
}

/// The entries of a block after one of them was replaced.
proof fn lemma_splice_slot(data: Seq<u8>, j0: int, e: EntryView, j: int, slots: int)
    requires
        0 <= j0 < slots,
        0 <= j < slots,
        68 * slots <= data.len(),
    ensures
        slot(splice(data, 68 * j0, entry_bytes(e)), j) == if j == j0 {
            entry_bytes(e)
        } else {
            slot(data, j)
        },
{
    let out = splice(data, 68 * j0, entry_bytes(e));
    if j == j0 {
        assert(slot(out, j) =~= entry_bytes(e));
    } else {
        assert(slot(out, j) =~= slot(data, j));
    }
}

/// The entries of a new directory block.
proof fn lemma_first_block_slot(data: Seq<u8>, e: EntryView, j: int, slots: int)
    requires
        0 <= j < slots,
        68 * slots <= data.len(),
    ensures
        slot(first_entry_block(data, e, slots), j) == if j == 0 {
            entry_bytes(e)
        } else {
            zeros(68)
        },
{
    let out = first_entry_block(data, e, slots);
    if j == 0 {
        assert(slot(out, j) =~= entry_bytes(e));
    } else {
        assert(slot(out, j) =~= zeros(68));
    }
}

impl ImageView {
    /// The inodes in use are the same, of the same kinds.
    pub open spec fn same_kinds(self, img: ImageView) -> bool {
        &&& img.sb == self.sb
        &&& img.inodes.len() == self.inodes.len()
        &&& forall|i: int|
            0 <= i < self.inodes.len() ==> {
                &&& (#[trigger] img.inodes[i]).allocated == self.inodes[i].allocated
                &&& img.inodes[i].kind == self.inodes[i].kind
            }
    }

    /// The inodes in use still are, with the kinds that they had.
    pub open spec fn keeps_kinds(self, img: ImageView) -> bool {
        &&& img.sb == self.sb
        &&& img.inodes.len() == self.inodes.len()
        &&& forall|i: int|
            0 <= i < self.inodes.len() && (#[trigger] self.inodes[i]).allocated ==> {
                &&& img.inodes[i].allocated
                &&& img.inodes[i].kind == self.inodes[i].kind
            }
    }

    /// The directories have the same entries at the same places.
    pub open spec fn same_places(self, img: ImageView) -> bool {
        &&& self.keeps_kinds(img)
        &&& forall|d: int, k: int, j: int| #[trigger]
            img.is_slot(d, k, j) <==> self.is_slot(d, k, j)
        &&& forall|d: int, k: int, j: int|
            self.is_slot(d, k, j) ==> #[trigger] img.entry_at(d, k, j) == self.entry_at(d, k, j)
    }

    /// Entry `j0` in the `k0`-th block of the directory `d` now reads `r`; all
    /// other entries are as before, and entries in new places are unused.
    pub open spec fn entry_changed(
        self,
        img: ImageView,
        d: int,
        k0: int,
        j0: int,
        r: Outcome<EntryView>,
    ) -> bool {
        &&& self.same_kinds(img)
        &&& img.is_slot(d, k0, j0)
        &&& forall|d2: int, k: int, j: int|
            self.is_slot(d2, k, j) ==> #[trigger] img.is_slot(d2, k, j)
        &&& forall|d2: int, k: int, j: int|
            img.is_slot(d2, k, j) ==> #[trigger] img.entry_at(d2, k, j) == if d2 == d && k == k0
                && j == j0 {
                r
            } else if self.is_slot(d2, k, j) {
                self.entry_at(d2, k, j)
            } else {
                Ok(empty_entry())
            }
    }

    /// No entry in use names inode `x`.
    pub open spec fn unnamed(self, x: u32) -> bool {
        forall|d: int, k: int, j: int| #[trigger]
            self.links(d, k, j) ==> self.target(d, k, j) != x
    }

    /// Replacing an entry of a directory changes that entry alone.
    pub proof fn lemma_put(self, d: int, k0: int, j0: int, e: EntryView)
        requires
            self.sound(),
            self.is_slot(d, k0, j0),
        ensures
            ({
                let b = self.pointer(self.inodes[d], k0) as int;
                let img = self.put_entry(b, j0, e);
                &&& img.mapped()
                &&& self.keeps_others(img, d)
                &&& img.inodes == self.inodes
                &&& img.gather(d) == self.gather(d)
                &&& forall|i: int| 0 <= i < img.inodes.len() ==> #[trigger] img.node_sound(i)
                &&& self.entry_changed(img, d, k0, j0, decode_entry(entry_bytes(e)))
            }),
    {
        let node = self.inodes[d];
        let b = self.pointer(node, k0) as int;
        let img = self.put_entry(b, j0, e);
        let slots = self.slots();
        assert(self.node_sound(d));
        assert(self.pointer(node, k0) != NULL_BLOCK);
        self.lemma_pointer_bound(d, k0);
        let data = splice(self.blocks[b], 68 * j0, entry_bytes(e));
        self.lemma_fill(d, k0, data);
        self.lemma_covered_nonnegative(node);
        assert forall|i: int| 0 <= i < img.inodes.len() implies #[trigger] img.node_sound(i) by {
            assert(self.node_sound(i));
            if i != d {
                assert(self.keeps(img, i));
                self.lemma_keeps_node(img, i);
            } else {
                assert forall|k: int|
                    0 <= k < img.covered(node) implies #[trigger] img.pointer(node, k)
                    != NULL_BLOCK by {
                    assert(img.pointer(img.inodes[d], k) == self.pointer(node, k));
                }
                assert forall|k: int| k >= img.covered(node) implies #[trigger] img.pointer(node, k)
                    == NULL_BLOCK by {
                    assert(img.pointer(img.inodes[d], k) == self.pointer(node, k));
                }
            }
        }
        assert forall|d2: int, k: int, j: int| #[trigger]
            img.is_slot(d2, k, j) <==> self.is_slot(d2, k, j) by {}
        assert forall|d2: int, k: int, j: int|
            img.is_slot(d2, k, j) implies #[trigger] img.entry_at(d2, k, j) == if d2 == d && k == k0
            && j == j0 {
            decode_entry(entry_bytes(e))
        } else {
            self.entry_at(d2, k, j)
        } by {
            assert(self.is_slot(d2, k, j));
            if d2 != d {
                assert(self.keeps(img, d2));
                assert(self.node_sound(d2));
                self.lemma_keeps_places(img, d2);
            } else {
                assert(img.pointer(img.inodes[d], k) == self.pointer(node, k));
                self.lemma_pointer_bound(d, k);
                if k == k0 {
                    assert(68 * slots <= self.bs());
                    lemma_splice_slot(self.blocks[b], j0, e, j, slots);
                } else {
                    assert(self.pointer(node, k) != NULL_BLOCK);
                }
            }
        }
    }

    /// One more block covers one block more.
    proof fn lemma_covered_grown(self, node: InodeView)
        requires
            self.bs() > 0,
            node.size + self.bs() <= u64::MAX,
        ensures
            self.covered(InodeView { size: (node.size + self.bs()) as u64, ..node })
                == self.covered(node) + 1,
    {
        let bs = self.bs();
        vstd::arithmetic::div_mod::lemma_div_plus_one(node.size + bs - 1, bs);
    }

    /// Growing a directory adds a block with one entry in use, or changes no
    /// entry.
    pub proof fn lemma_grow(self, d: int, e: EntryView)
        requires
            self.sound(),
            self.slots() > 0,
            self.is_dir(d),
        ensures
            ({
                let (img, r) = self.grow(d, e);
                &&& img.mapped()
                &&& self.keeps_others(img, d)
                &&& forall|i: int| 0 <= i < img.inodes.len() ==> #[trigger] img.node_sound(i)
                &&& match r {
                    Ok(()) => self.entry_changed(
                        img,
                        d,
                        self.covered(self.inodes[d]),
                        0,
                        decode_entry(entry_bytes(e)),
                    ),
                    Err(_) => self.same_places(img),
                }
            }),
    {
        let node = self.inodes[d];
        let n = self.covered(node);
        let slots = self.slots();
        assert(self.node_sound(d));
        self.lemma_covered_nonnegative(node);
        assert(self.pointer(node, n) == NULL_BLOCK);
        self.lemma_alloc_logical(d, n);
        let (img1, r1) = self.alloc_logical_block(d, n);
        let (img, r) = self.grow(d, e);
        assert forall|j: int| 0 <= j < n implies {
            &&& #[trigger] img1.pointer(img1.inodes[d], j) == self.pointer(node, j)
            &&& img1.pointer(img1.inodes[d], j) != NULL_BLOCK
            &&& img1.blocks[self.pointer(node, j) as int] == self.blocks[self.pointer(
                node,
                j,
            ) as int]
        } by {
            assert(self.pointer(node, j) != NULL_BLOCK);
        }
        assert forall|i: int| 0 <= i < self.inodes.len() implies {
            &&& (#[trigger] img1.inodes[i]).allocated == self.inodes[i].allocated
            &&& img1.inodes[i].kind == self.inodes[i].kind
        } by {
            if i != d {
                assert(self.keeps(img1, i));
            }
        }
        match r1 {
            Err(_) => {
                assert forall|i: int|
                    0 <= i < img.inodes.len() implies #[trigger] img.node_sound(i) by {
                    assert(self.node_sound(i));
                    if i != d {
                        assert(self.keeps(img, i));
                        self.lemma_keeps_node(img, i);
                    } else {
                        assert forall|k: int| k >= n implies #[trigger] img.pointer(
                            img.inodes[d],
                            k,
                        ) == NULL_BLOCK by {
                            if k != n {
                                assert(img.pointer(img.inodes[d], k) == self.pointer(node, k));
                            }
                        }
                    }
                }
                assert forall|d2: int, k: int, j: int| {
                    &&& #[trigger] img.is_slot(d2, k, j) <==> self.is_slot(d2, k, j)
                    &&& self.is_slot(d2, k, j) ==> img.entry_at(d2, k, j) == self.entry_at(
                        d2,
                        k,
                        j,
                    )
                } by {
                    if 0 <= d2 < self.inodes.len() {
                        assert(img.inodes[d2].kind == self.inodes[d2].kind);
                    }
                    if self.is_dir(d2) {
                        assert(self.node_sound(d2));
                        if d2 != d {
                            assert(self.keeps(img, d2));
                            self.lemma_keeps_places(img, d2);
                            if self.is_slot(d2, k, j) {
                                assert(img.entry_at(d2, k, j) == self.entry_at(d2, k, j));
                            }
                        } else if self.is_slot(d, k, j) {
                            assert(img.pointer(img.inodes[d], k) == self.pointer(node, k));
                        }
                    }
                }
                assert forall|d2: int, k: int, j: int|
                    self.is_slot(d2, k, j) implies #[trigger] img.entry_at(d2, k, j)
                    == self.entry_at(d2, k, j) by {
                    assert(img.is_slot(d2, k, j));
                }
            },
            Ok(b) => {
                let data = first_entry_block(img1.blocks[b as int], e, slots);
                img1.lemma_fill(d, n, data);
                let img2 = img1.with_block(b as int, data);
                self.lemma_keeps_others_trans(img1, img2, d);
                self.lemma_present_bound(d);
                self.lemma_size_bound(node);
                let size = (node.size + self.bs()) as u64;
                img2.lemma_resize(d, size);
                assert(img == img2.with_inode(d, InodeView { size, ..img2.inodes[d] }));
                self.lemma_keeps_others_trans(img2, img, d);
                self.lemma_covered_grown(node);
                let new = img.inodes[d];
                assert(self.covered(new) == n + 1);
                assert forall|k: int| k >= 0 implies #[trigger] img.pointer(new, k)
                    == img1.pointer(img1.inodes[d], k) by {
                    assert(img.pointer(img.inodes[d], k) == img2.pointer(img2.inodes[d], k));
                    assert(img2.pointer(img2.inodes[d], k) == img1.pointer(img1.inodes[d], k));
                }
                assert forall|i: int| 0 <= i < self.inodes.len() implies {
                    &&& (#[trigger] img.inodes[i]).allocated == self.inodes[i].allocated
                    &&& img.inodes[i].kind == self.inodes[i].kind
                } by {
                    if i != d {
                        assert(self.keeps(img, i));
                    }
                }
                assert forall|i: int|
                    0 <= i < img.inodes.len() implies #[trigger] img.node_sound(i) by {
                    assert(self.node_sound(i));
                    if i != d {
                        assert(self.keeps(img, i));
                        self.lemma_keeps_node(img, i);
                    } else {
                        assert forall|k: int| 0 <= k < n + 1 implies #[trigger] img.pointer(new, k)
                            != NULL_BLOCK by {
                            if k < n {
                                assert(img1.pointer(img1.inodes[d], k) == self.pointer(node, k));
                            }
                        }
                        assert forall|k: int| k >= n + 1 implies #[trigger] img.pointer(new, k)
                            == NULL_BLOCK by {
                            assert(img1.pointer(img1.inodes[d], k) == self.pointer(node, k));
                        }
                    }
                }
                assert(68 * slots <= self.bs());
                assert forall|d2: int, k: int, j: int| {
                    &&& #[trigger] img.is_slot(d2, k, j) <==> self.is_slot(d2, k, j) || (d2 == d
                        && k == n && 0 <= j < slots)
                    &&& img.is_slot(d2, k, j) ==> img.entry_at(d2, k, j) == if d2 == d && k == n
                        && j == 0 {
                        decode_entry(entry_bytes(e))
                    } else if self.is_slot(d2, k, j) {
                        self.entry_at(d2, k, j)
                    } else {
                        Ok(empty_entry())
                    }
                } by {
                    if 0 <= d2 < self.inodes.len() {
                        assert(img.inodes[d2].kind == self.inodes[d2].kind);
                    }
                    if self.is_dir(d2) {
                        assert(self.node_sound(d2));
                        if d2 != d {
                            assert(self.keeps(img, d2));
                            self.lemma_keeps_places(img, d2);
                            if self.is_slot(d2, k, j) {
                                assert(img.entry_at(d2, k, j) == self.entry_at(d2, k, j));
                            }
                        } else if img.is_slot(d, k, j) {
                            assert(img.pointer(new, k) == img1.pointer(img1.inodes[d], k));
                            if k == n {
                                lemma_first_block_slot(img1.blocks[b as int], e, j, slots);
                                lemma_empty_entry();
                            } else {
                                assert(img1.pointer(img1.inodes[d], k) == self.pointer(node, k));
                                assert(img1.pointer(img1.inodes[d], k) != b);
                                self.lemma_pointer_bound(d, k);
                            }
                        }
                    }
                }
                assert(img.is_slot(d, n, 0));
                assert forall|d2: int, k: int, j: int|
                    self.is_slot(d2, k, j) implies #[trigger] img.is_slot(d2, k, j) by {}
                assert forall|d2: int, k: int, j: int|
                    img.is_slot(d2, k, j) implies #[trigger] img.entry_at(d2, k, j) == if d2 == d
                    && k == n && j == 0 {
                    decode_entry(entry_bytes(e))
                } else if self.is_slot(d2, k, j) {
                    self.entry_at(d2, k, j)
                } else {
                    Ok(empty_entry())
                } by {}
            },
        }
    }

    /// A directory with all its blocks covers no more than the pointer scheme
    /// has.
    pub proof fn lemma_present_bound(self, d: int)
        requires
            self.blocks_present(d),
            self.covered(self.inodes[d]) >= 0,
        ensures
            self.covered(self.inodes[d]) <= DIRECT_POINTERS + self.words(),
    {
        let n = self.covered(self.inodes[d]);
        if n > DIRECT_POINTERS + self.words() {
            assert(self.pointer(self.inodes[d], n - 1) != NULL_BLOCK);
        }
    }

    /// Directories with the same entries at the same places link the same
    /// inodes.
    pub proof fn lemma_same_places_sound(self, img: ImageView)
        requires
            self.sound(),
            img.mapped(),
            self.same_places(img),
            forall|i: int| 0 <= i < img.inodes.len() ==> #[trigger] img.node_sound(i),
        ensures
            img.sound(),
            self.readable() ==> img.readable(),
            forall|d: int, k: int, j: int| #[trigger] img.links(d, k, j) <==> self.links(d, k, j),
    {
        assert forall|d: int, k: int, j: int| #[trigger] img.links(d, k, j) <==> self.links(d, k, j) by {
            assert(img.is_slot(d, k, j) <==> self.is_slot(d, k, j));
            if self.is_slot(d, k, j) {
                assert(img.entry_at(d, k, j) == self.entry_at(d, k, j));
            }
        }
        assert forall|d: int, k: int, j: int| #[trigger] img.links(d, k, j) implies {
            let x = img.target(d, k, j);
            0 < x < INODE_COUNT && img.inodes[x as int].allocated
        } by {
            assert(self.links(d, k, j));
            assert(img.entry_at(d, k, j) == self.entry_at(d, k, j));
            assert(self.inodes[self.target(d, k, j) as int].allocated);
        }
        assert forall|d: int, k: int, j: int, d2: int, k2: int, j2: int|
            #[trigger] img.links(d, k, j) && #[trigger] img.links(d2, k2, j2) && img.target(d, k, j)
                == img.target(d2, k2, j2) implies d == d2 && k == k2 && j == j2 by {
            assert(self.links(d, k, j) && self.links(d2, k2, j2));
            assert(img.entry_at(d, k, j) == self.entry_at(d, k, j));
            assert(img.entry_at(d2, k2, j2) == self.entry_at(d2, k2, j2));
        }
        assert forall|d: int, k: int, j: int, k2: int, j2: int|
            #[trigger] img.links(d, k, j) && #[trigger] img.links(d, k2, j2) && img.label(d, k, j)
                == img.label(d, k2, j2) implies k == k2 && j == j2 by {
            assert(self.links(d, k, j) && self.links(d, k2, j2));
            assert(img.entry_at(d, k, j) == self.entry_at(d, k, j));
            assert(img.entry_at(d, k2, j2) == self.entry_at(d, k2, j2));
        }
        assert forall|d: int, k: int, j: int| #[trigger] img.links(d, k, j) implies proper_name(
            img.label(d, k, j),
        ) by {
            assert(self.links(d, k, j));
            assert(img.entry_at(d, k, j) == self.entry_at(d, k, j));
        }
        assert(self.inodes[0].allocated);
        if self.readable() {
            assert forall|d: int, k: int, j: int|
                img.is_slot(d, k, j) implies #[trigger] img.entry_at(d, k, j) is Ok by {
                assert(self.is_slot(d, k, j));
                assert(self.entry_at(d, k, j) is Ok);
            }
        }
    }

    /// A new entry in a place that was not in use, for an inode that had none,
    /// keeps the tables in agreement.
    pub proof fn lemma_entry_added(
        self,
        img: ImageView,
        d: int,
        k0: int,
        j0: int,
        name: Seq<char>,
        target: u32,
    )
        requires
            self.sound(),
            img.mapped(),
            forall|i: int| 0 <= i < img.inodes.len() ==> #[trigger] img.node_sound(i),
            self.entry_changed(
                img,
                d,
                k0,
                j0,
                decode_entry(entry_bytes(used_entry(name, target))),
            ),
            !self.links(d, k0, j0),
            0 < target < INODE_COUNT,
            self.inodes[target as int].allocated,
            self.unnamed(target),
            forall|k: int, j: int| #[trigger]
                self.links(d, k, j) ==> self.label(d, k, j) != name,
            fits_slot(used_entry(name, target)),
            proper_name(name),
        ensures
            img.sound(),
            self.readable() ==> img.readable(),
            forall|d2: int, k: int, j: int|
                #[trigger] img.links(d2, k, j) && !(d2 == d && k == k0 && j == j0) ==> self.links(
                    d2,
                    k,
                    j,
                ) && img.entry_at(d2, k, j) == self.entry_at(d2, k, j),
            forall|d2: int, k: int, j: int| #[trigger]
                self.links(d2, k, j) ==> img.links(d2, k, j) && img.entry_at(d2, k, j)
                    == self.entry_at(d2, k, j) && !(d2 == d && k == k0 && j == j0),
            img.links(d, k0, j0),
            img.label(d, k0, j0) == name,
            img.target(d, k0, j0) == target,
    {
        let e = used_entry(name, target);
        law_entry_roundtrip(e);
        assert forall|d2: int, k: int, j: int|
            #[trigger] img.links(d2, k, j) && !(d2 == d && k == k0 && j == j0) implies self.links(
            d2,
            k,
            j,
        ) && img.entry_at(d2, k, j) == self.entry_at(d2, k, j) by {
            assert(img.is_slot(d2, k, j));
            assert(img.entry_at(d2, k, j) is Ok);
        }
        assert forall|d2: int, k: int, j: int| #[trigger] self.links(d2, k, j) implies img.links(
            d2,
            k,
            j,
        ) && img.entry_at(d2, k, j) == self.entry_at(d2, k, j) && !(d2 == d && k == k0 && j
            == j0) by {
            assert(img.is_slot(d2, k, j));
        }
        assert(img.is_slot(d, k0, j0));
        let r = img.entry_at(d, k0, j0);
        assert forall|d2: int, k: int, j: int| #[trigger] img.links(d2, k, j) implies {
            let x = img.target(d2, k, j);
            0 < x < INODE_COUNT && img.inodes[x as int].allocated
        } by {
            if !(d2 == d && k == k0 && j == j0) {
                assert(self.links(d2, k, j));
            }
        }
        assert forall|d1: int, k: int, j: int, d2: int, k2: int, j2: int|
            #[trigger] img.links(d1, k, j) && #[trigger] img.links(d2, k2, j2) && img.target(
                d1,
                k,
                j,
            ) == img.target(d2, k2, j2) implies d1 == d2 && k == k2 && j == j2 by {
            if !(d1 == d && k == k0 && j == j0) {
                assert(self.links(d1, k, j));
            }
            if !(d2 == d && k2 == k0 && j2 == j0) {
                assert(self.links(d2, k2, j2));
            }
        }
        assert forall|d2: int, k: int, j: int, k2: int, j2: int|
            #[trigger] img.links(d2, k, j) && #[trigger] img.links(d2, k2, j2) && img.label(
                d2,
                k,
                j,
            ) == img.label(d2, k2, j2) implies k == k2 && j == j2 by {
            if !(d2 == d && k == k0 && j == j0) {
                assert(self.links(d2, k, j));
            }
            if !(d2 == d && k2 == k0 && j2 == j0) {
                assert(self.links(d2, k2, j2));
            }
        }
        assert forall|d2: int, k: int, j: int| #[trigger] img.links(d2, k, j) implies proper_name(
            img.label(d2, k, j),
        ) by {
            if !(d2 == d && k == k0 && j == j0) {
                assert(self.links(d2, k, j));
            }
        }
        assert(img.inodes[0].allocated);
        if self.readable() {
            assert forall|d2: int, k: int, j: int|
                img.is_slot(d2, k, j) implies #[trigger] img.entry_at(d2, k, j) is Ok by {
                if self.is_slot(d2, k, j) {
                    assert(self.entry_at(d2, k, j) is Ok);
                }
            }
        }
    }

    /// Clearing an entry keeps the tables in agreement.
    pub proof fn lemma_entry_cleared(self, img: ImageView, d: int, k0: int, j0: int)
        requires
            self.sound(),
            img.mapped(),
            forall|i: int| 0 <= i < img.inodes.len() ==> #[trigger] img.node_sound(i),
            self.entry_changed(img, d, k0, j0, decode_entry(entry_bytes(empty_entry()))),
        ensures
            img.sound(),
            self.readable() ==> img.readable(),
            forall|d2: int, k: int, j: int| #[trigger]
                img.links(d2, k, j) <==> self.links(d2, k, j) && !(d2 == d && k == k0 && j == j0),
            forall|d2: int, k: int, j: int| #[trigger]
                img.links(d2, k, j) ==> img.entry_at(d2, k, j) == self.entry_at(d2, k, j),
    {
        lemma_empty_entry();
        assert forall|d2: int, k: int, j: int| {
            &&& #[trigger] img.links(d2, k, j) <==> self.links(d2, k, j) && !(d2 == d && k == k0
                && j == j0)
            &&& img.links(d2, k, j) ==> img.entry_at(d2, k, j) == self.entry_at(d2, k, j)
        } by {
            if img.is_slot(d2, k, j) {
                let r = img.entry_at(d2, k, j);
                assert(r == if d2 == d && k == k0 && j == j0 {
                    Ok(empty_entry())
                } else if self.is_slot(d2, k, j) {
                    self.entry_at(d2, k, j)
                } else {
                    Ok(empty_entry())
                });
            }
            if self.links(d2, k, j) {
                assert(img.is_slot(d2, k, j));
            }
        }
        assert forall|d2: int, k: int, j: int| #[trigger] img.links(d2, k, j) implies {
            let x = img.target(d2, k, j);
            0 < x < INODE_COUNT && img.inodes[x as int].allocated
        } by {
            assert(self.links(d2, k, j));
        }
        assert forall|d1: int, k: int, j: int, d2: int, k2: int, j2: int|
            #[trigger] img.links(d1, k, j) && #[trigger] img.links(d2, k2, j2) && img.target(
                d1,
                k,
                j,
            ) == img.target(d2, k2, j2) implies d1 == d2 && k == k2 && j == j2 by {
            assert(self.links(d1, k, j) && self.links(d2, k2, j2));
        }
        assert forall|d2: int, k: int, j: int, k2: int, j2: int|
            #[trigger] img.links(d2, k, j) && #[trigger] img.links(d2, k2, j2) && img.label(
                d2,
                k,
                j,
            ) == img.label(d2, k2, j2) implies k == k2 && j == j2 by {
            assert(self.links(d2, k, j) && self.links(d2, k2, j2));
        }
        assert forall|d2: int, k: int, j: int| #[trigger] img.links(d2, k, j) implies proper_name(
            img.label(d2, k, j),
        ) by {
            assert(self.links(d2, k, j));
        }
        assert(img.inodes[0].allocated);
        if self.readable() {
            assert forall|d2: int, k: int, j: int|
                img.is_slot(d2, k, j) implies #[trigger] img.entry_at(d2, k, j) is Ok by {
                if self.is_slot(d2, k, j) {
                    assert(self.entry_at(d2, k, j) is Ok);
                }
            }
        }
    }
}

} // verus!
