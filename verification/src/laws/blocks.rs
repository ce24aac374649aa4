//! The block layer: which blocks and inodes are claimed and given back, and
//! where the pointers of an inode stand.

use vstd::prelude::*;
use crate::error::ErrorView;
use crate::inode::{FileKind, InodeView, NULL_BLOCK};
use crate::laws::layout::{lemma_number_4, number};
use crate::laws::meta::in_use_test;
use crate::model::image::{
    first_clear, lemma_first_clear, lemma_last_clear, live, names_block, released, ImageView,
};

verus! {

/// A node that has no data: no size and no pointers.
pub open spec fn without_data(node: InodeView) -> bool {
    &&& node.size == 0
    &&& node.direct.len() == 12
    &&& forall|k: int| 0 <= k < 12 ==> #[trigger] node.direct[k] == 0xffff_ffff
    &&& node.indirect == 0xffff_ffff
}

/// Claiming a block takes the first one that is free, fills it with zeros, and
/// changes nothing else. It fails if no block is free, and then changes nothing.
pub proof fn law_alloc_block(img: ImageView)
    requires
        img.bitmap.len() <= 0x1_0000_0000,
        img.blocks.len() == img.bitmap.len(),
    ensures
        ({
            let (after, r) = img.alloc_block();
            &&& r is Err <==> forall|b: int| 0 <= b < img.bitmap.len() ==> #[trigger] img.bitmap[b]
            &&& r matches Err(e) ==> e == ErrorView::OutOfSpace && after == img
            &&& r matches Ok(x) ==> {
                &&& x < img.bitmap.len()
                &&& !img.bitmap[x as int]
                &&& forall|b: int| 0 <= b < x ==> #[trigger] img.bitmap[b]
                &&& after.sb == img.sb
                &&& after.inodes == img.inodes
                &&& after.bitmap.len() == img.bitmap.len()
                &&& forall|b: int|
                    0 <= b < img.bitmap.len() ==> #[trigger] after.bitmap[b] == (img.bitmap[b] || b
                        == x)
                &&& after.blocks.len() == img.blocks.len()
                &&& forall|b: int|
                    0 <= b < img.blocks.len() && b != x ==> #[trigger] after.blocks[b]
                        == img.blocks[b]
                &&& after.blocks[x as int].len() == img.blocks[x as int].len()
                &&& forall|p: int|
                    0 <= p < after.blocks[x as int].len() ==> #[trigger] after.blocks[x as int][p]
                        == 0
            }
        }),
{
    lemma_first_clear(img.bitmap, 0);
    let x = first_clear(img.bitmap);
    if x < img.bitmap.len() {
        assert(!img.bitmap[x]);
    }
}

/// Giving back a block changes its flag alone.
pub proof fn law_free_block(img: ImageView, x: u32)
    ensures
        ({
            let after = img.free_block(x);
            &&& after.sb == img.sb
            &&& after.inodes == img.inodes
            &&& after.blocks == img.blocks
            &&& after.bitmap.len() == img.bitmap.len()
            &&& forall|b: int|
                0 <= b < img.bitmap.len() ==> #[trigger] after.bitmap[b] == (img.bitmap[b] && b
                    != x)
        }),
{
}

/// Where claiming an inode, at position `x`, leads.
pub open spec fn claimed_at(
    img: ImageView,
    after: ImageView,
    x: int,
    id: u32,
    kind: FileKind,
) -> bool {
    &&& 0 <= x < img.inodes.len()
    &&& !img.inodes[x].allocated
    &&& id == img.inodes[x].id
    &&& after.sb == img.sb
    &&& after.bitmap == img.bitmap
    &&& after.blocks == img.blocks
    &&& after.inodes.len() == img.inodes.len()
    &&& forall|i: int|
        0 <= i < img.inodes.len() && i != x ==> #[trigger] after.inodes[i] == img.inodes[i]
    &&& after.inodes[x].id == id
    &&& after.inodes[x].kind == kind
    &&& after.inodes[x].allocated
    &&& after.inodes[x].link_count == 1
    &&& without_data(after.inodes[x])
}

/// All inodes before position `x` are in use.
pub open spec fn used_before(img: ImageView, x: int) -> bool {
    forall|i: int| 0 <= i < x ==> (#[trigger] img.inodes[i]).allocated
}

/// All inodes behind position `x` are in use.
pub open spec fn used_behind(img: ImageView, x: int) -> bool {
    forall|i: int| x < i < img.inodes.len() ==> (#[trigger] img.inodes[i]).allocated
}

/// Claiming an inode takes one that is not in use, and changes nothing else: the
/// first for a file, the last for a directory; in the block layer's own
/// allocation always the first. It fails if all are in use.
pub proof fn law_claim_inode(img: ImageView, kind: FileKind)
    ensures
        ({
            let full = forall|i: int|
                0 <= i < img.inodes.len() ==> (#[trigger] img.inodes[i]).allocated;
            let x = img.vacant(kind);
            let (after, r) = img.claim_inode(kind);
            &&& full <==> x == img.inodes.len()
            &&& full ==> after == img && r == Err::<u32, ErrorView>(ErrorView::OutOfInodes)
            &&& !full ==> {
                &&& r is Ok
                &&& claimed_at(img, after, x, r->Ok_0, kind)
                &&& kind == FileKind::File ==> used_before(img, x)
                &&& kind == FileKind::Directory ==> used_behind(img, x)
            }
            &&& full ==> img.alloc_inode(kind) == (
                img,
                Err::<u32, ErrorView>(ErrorView::OutOfInodes),
            )
            &&& !full ==> {
                &&& img.alloc_inode(kind).1 is Ok
                &&& exists|y: int| #[trigger]
                    used_before(img, y) && claimed_at(
                        img,
                        img.alloc_inode(kind).0,
                        y,
                        img.alloc_inode(kind).1->Ok_0,
                        kind,
                    )
            }
        }),
{
    let bits = img.in_use();
    let y = first_clear(bits);
    lemma_first_clear(bits, 0);
    lemma_last_clear(bits, bits.len() as int);
    img.lemma_vacant(kind);
    assert forall|i: int| 0 <= i < y implies (#[trigger] img.inodes[i]).allocated by {
        assert(bits[i]);
    }
    if y < bits.len() {
        assert(!bits[y]);
        assert(!img.inodes[y].allocated);
        assert(used_before(img, y));
    }
    let x = img.vacant(kind);
    if x < bits.len() {
        assert(!img.inodes[x].allocated);
        if kind == FileKind::Directory {
            assert forall|i: int| x < i < img.inodes.len() implies (
            #[trigger] img.inodes[i]).allocated by {
                assert(bits[i]);
            }
        }
    }
}

/// Where the pointer to the `k`-th data block stands: the first twelve in the
/// inode, the others in its block of pointers, four bytes each.
pub proof fn law_pointer(img: ImageView, node: InodeView, k: int)
    requires
        0 <= k,
        node.indirect != NULL_BLOCK ==> {
            &&& node.indirect < img.blocks.len()
            &&& img.blocks[node.indirect as int].len() == img.bs()
        },
    ensures
        img.pointer(node, k) == if k < 12 {
            node.direct[k] as int
        } else if node.indirect == 0xffff_ffff || k >= 12 + img.bs() / 4 {
            0xffff_ffff
        } else {
            number(img.blocks[node.indirect as int], 4 * (k - 12), 4)
        },
{
    if k >= 12 && node.indirect != NULL_BLOCK && k < 12 + img.bs() / 4 {
        lemma_number_4(img.blocks[node.indirect as int], 4 * (k - 12));
    }
}

/// Block `b` is a data block of `node`, or its block of pointers.
pub open spec fn refers(img: ImageView, node: InodeView, b: int) -> bool {
    &&& b != 0xffff_ffff
    &&& {
        ||| node.indirect == b
        ||| exists|k: int| 0 <= k < 12 + img.bs() / 4 && #[trigger] img.pointer(node, k) == b
    }
}

proof fn lemma_live_filter(s: Seq<u32>)
    ensures
        live(s) == s.filter(in_use_test()),
    decreases s.len(),
{
    reveal(Seq::filter);
    if s.len() > 0 {
        lemma_live_filter(s.drop_last());
    }
}

proof fn lemma_live_names(s: Seq<u32>, b: int)
    ensures
        names_block(live(s), b) <==> b != NULL_BLOCK && names_block(s, b),
    decreases s.len(),
{
    if s.len() > 0 {
        let t = s.drop_last();
        let x = s.last();
        lemma_live_names(t, b);
        assert(s[s.len() - 1] == x);
        if names_block(t, b) {
            let j = choose|j: int| 0 <= j < t.len() && #[trigger] t[j] == b;
            assert(s[j] == b);
        }
        if names_block(s, b) && x != b {
            let j = choose|j: int| 0 <= j < s.len() && #[trigger] s[j] == b;
            assert(t[j] == b);
        }
        if x != NULL_BLOCK {
            let l = live(t).push(x);
            if names_block(live(t), b) {
                let j = choose|j: int| 0 <= j < live(t).len() && #[trigger] live(t)[j] == b;
                assert(l[j] == b);
            }
            if x == b {
                assert(l[l.len() - 1] == b);
            }
            if names_block(l, b) && x != b {
                let j = choose|j: int| 0 <= j < l.len() && #[trigger] l[j] == b;
                assert(live(t)[j] == b);
            }
        }
    }
}

/// The blocks that an inode in use refers to, in order: the direct pointers in
/// use, the block of pointers, and the pointers in use that it stores. An inode
/// that is not in use refers to none.
pub proof fn law_gather(img: ImageView, id: int)
    requires
        img.shaped(),
        0 <= id < img.inodes.len(),
    ensures
        ({
            let node = img.inodes[id];
            let used = img.gather(id);
            let behind = Seq::new((img.bs() / 4) as nat, |k: int| img.pointer(node, 12 + k));
            &&& !node.allocated ==> used.len() == 0
            &&& node.allocated && node.indirect == 0xffff_ffff ==> used == node.direct.filter(
                in_use_test(),
            )
            &&& node.allocated && node.indirect != 0xffff_ffff ==> used == node.direct.filter(
                in_use_test(),
            ).push(node.indirect) + behind.filter(in_use_test())
            &&& node.allocated ==> forall|b: int| #[trigger]
                names_block(used, b) <==> refers(img, node, b)
        }),
{
    let node = img.inodes[id];
    let fields = img.pointer_fields(node);
    let behind = Seq::new((img.bs() / 4) as nat, |k: int| img.pointer(node, 12 + k));
    lemma_live_filter(fields);
    if node.allocated {
        if node.indirect != NULL_BLOCK {
            let front = node.direct.push(node.indirect);
            assert(fields =~= front + behind);
            Seq::filter_distributes_over_add(front, behind, in_use_test());
            reveal(Seq::filter);
            assert(front.drop_last() =~= node.direct);
        }
        assert forall|b: int| #[trigger]
            names_block(img.gather(id), b) <==> refers(img, node, b) by {
            lemma_live_names(fields, b);
            if names_block(fields, b) {
                let j = choose|j: int| 0 <= j < fields.len() && #[trigger] fields[j] == b;
                if j < 12 {
                    assert(img.pointer(node, j) == b);
                } else if j > 12 {
                    assert(img.pointer(node, j - 1) == b);
                }
            }
            if refers(img, node, b) {
                if node.indirect == b {
                    assert(fields[12] == b);
                } else {
                    let k = choose|k: int|
                        0 <= k < 12 + img.bs() / 4 && #[trigger] img.pointer(node, k) == b;
                    if k < 12 {
                        assert(fields[k] == b);
                    } else {
                        assert(fields[k + 1] == b);
                    }
                }
            }
        }
    }
}

/// Giving back an inode frees the blocks that it refers to and no other, and
/// leaves an inode that is not in use. Nothing else changes.
pub proof fn law_free_inode(img: ImageView, id: u32)
    requires
        img.shaped(),
        id < img.inodes.len(),
    ensures
        ({
            let after = img.free_inode(id);
            let node = img.inodes[id as int];
            let left = after.inodes[id as int];
            &&& after.sb == img.sb
            &&& after.blocks == img.blocks
            &&& after.inodes.len() == img.inodes.len()
            &&& forall|i: int|
                0 <= i < img.inodes.len() && i != id ==> #[trigger] after.inodes[i] == img.inodes[i]
            &&& left.id == id
            &&& left.kind == FileKind::File
            &&& left.link_count == 0
            &&& !left.allocated
            &&& without_data(left)
            &&& after.bitmap.len() == img.bitmap.len()
            &&& forall|b: int|
                0 <= b < img.bitmap.len() ==> #[trigger] after.bitmap[b] == (img.bitmap[b] && !(
                node.allocated && refers(img, node, b)))
        }),
{
    law_gather(img, id as int);
    assert forall|b: int| 0 <= b < img.bitmap.len() implies #[trigger] img.free_inode(id).bitmap[b]
        == (img.bitmap[b] && !(img.inodes[id as int].allocated && refers(
        img,
        img.inodes[id as int],
        b,
    ))) by {
        assert(img.free_inode(id).bitmap[b] == (img.bitmap[b] && !names_block(
            img.gather(id as int),
            b,
        )));
    }
}

/// Emptying an inode frees the blocks that it refers to and no other. It keeps
/// its number, kind and links; nothing else changes.
pub proof fn law_truncate(img: ImageView, id: int)
    requires
        img.shaped(),
        0 <= id < img.inodes.len(),
    ensures
        ({
            let after = img.truncated(id);
            let node = img.inodes[id];
            let left = after.inodes[id];
            &&& after.sb == img.sb
            &&& after.blocks == img.blocks
            &&& after.inodes.len() == img.inodes.len()
            &&& forall|i: int|
                0 <= i < img.inodes.len() && i != id ==> #[trigger] after.inodes[i] == img.inodes[i]
            &&& left.id == node.id
            &&& left.kind == node.kind
            &&& left.link_count == node.link_count
            &&& left.allocated == node.allocated
            &&& without_data(left)
            &&& after.bitmap.len() == img.bitmap.len()
            &&& after.bitmap == released(img.bitmap, img.gather(id))
            &&& forall|b: int|
                0 <= b < img.bitmap.len() ==> #[trigger] after.bitmap[b] == (img.bitmap[b] && !(
                node.allocated && refers(img, node, b)))
        }),
{
    law_gather(img, id);
    assert forall|b: int| 0 <= b < img.bitmap.len() implies #[trigger] img.truncated(id).bitmap[b]
        == (img.bitmap[b] && !(img.inodes[id].allocated && refers(img, img.inodes[id], b))) by {
        assert(img.truncated(id).bitmap[b] == (img.bitmap[b] && !names_block(img.gather(id), b)));
    }
}

} // verus!
