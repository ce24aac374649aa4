//! Space: how many blocks are free, what a write needs, and what a removal
//! gives back.

use vstd::prelude::*;
use vstd::utf8::encode_utf8;
use crate::block::{largest_file, MAX_NAME_LEN};
use crate::error::{ErrorView, Outcome};
use crate::inode::{FileKind, DIRECT_POINTERS, NULL_BLOCK};
use crate::laws::make::lemma_live_null;
use crate::model::dir::unused;
use crate::model::entry::{used_entry, EntryView};
use crate::model::image::{
    ceil_div, first_clear, lemma_ceil_div, lemma_first_clear, names_block, released, ImageView,
};
use crate::model::owner::lemma_names_push;
use crate::path::{split, split_last};

verus! {

/// How many of `bits` are clear.
pub open spec fn clear_count(bits: Seq<bool>) -> nat
    decreases bits.len(),
{
    if bits.len() == 0 {
        0
    } else if bits.last() {
        clear_count(bits.drop_last())
    } else {
        clear_count(bits.drop_last()) + 1
    }
}

/// The number of blocks that a file of `size` bytes takes: its data blocks, and
/// a block of pointers if it has more than twelve of them.
pub open spec fn blocks_needed(size: int, bs: int) -> int {
    let n = ceil_div(size, bs);
    if n > DIRECT_POINTERS {
        n + 1
    } else {
        n
    }
}

/// Setting a bit leaves one less clear; clearing one, one more.
proof fn lemma_clear_count_update(bits: Seq<bool>, b: int, value: bool)
    requires
        0 <= b < bits.len(),
        bits[b] != value,
    ensures
        clear_count(bits.update(b, value)) == clear_count(bits) + if value {
            -1int
        } else {
            1int
        },
    decreases bits.len(),
{
    let new = bits.update(b, value);
    if b == bits.len() - 1 {
        assert(new.drop_last() =~= bits.drop_last());
    } else {
        assert(new.drop_last() =~= bits.drop_last().update(b, value));
        lemma_clear_count_update(bits.drop_last(), b, value);
    }
}

/// There is a clear bit exactly if the first one is there.
proof fn lemma_clear_count_first(bits: Seq<bool>)
    ensures
        clear_count(bits) > 0 <==> first_clear(bits) < bits.len(),
{
    lemma_first_clear(bits, 0);
    lemma_clear_count_zero(bits);
    let b = first_clear(bits);
    if b < bits.len() {
        assert(!bits[b]);
    }
}

/// No bit is clear exactly if the count is zero.
proof fn lemma_clear_count_zero(bits: Seq<bool>)
    ensures
        clear_count(bits) == 0 <==> forall|b: int| 0 <= b < bits.len() ==> bits[b],
    decreases bits.len(),
{
    if bits.len() > 0 {
        lemma_clear_count_zero(bits.drop_last());
        if clear_count(bits) == 0 {
            assert forall|b: int| 0 <= b < bits.len() implies bits[b] by {
                if b < bits.len() - 1 {
                    assert(bits.drop_last()[b]);
                }
            }
        }
        if forall|b: int| 0 <= b < bits.len() ==> bits[b] {
            assert(bits[bits.len() - 1]);
            assert forall|b: int|
                0 <= b < bits.drop_last().len() implies bits.drop_last()[b] by {
                assert(bits[b]);
            }
        }
    }
}

impl ImageView {
    /// The number of free blocks.
    pub open spec fn free_blocks(self) -> nat {
        clear_count(self.bitmap)
    }

    /// Giving back blocks leaves so many more free.
    proof fn lemma_released_count(self, ptrs: Seq<u32>)
        requires
            self.pointers_tidy(ptrs),
        ensures
            clear_count(released(self.bitmap, ptrs)) == self.free_blocks() + ptrs.len(),
        decreases ptrs.len(),
    {
        let bits = self.bitmap;
        if ptrs.len() == 0 {
            assert(released(bits, ptrs) =~= bits);
        } else {
            let head = ptrs.drop_last();
            let p = ptrs.last();
            assert(head.push(p) =~= ptrs);
            assert(ptrs.take(head.len() as int) =~= head);
            assert(ptrs[ptrs.len() - 1] == p);
            assert forall|q: int| 0 <= q < head.len() implies {
                &&& (#[trigger] head[q]) < self.bitmap.len()
                &&& self.bitmap[head[q] as int]
                &&& !names_block(head.take(q), head[q] as int)
            } by {
                assert(ptrs[q] == head[q]);
                assert(ptrs.take(q) =~= head.take(q));
            }
            self.lemma_released_count(head);
            assert(released(bits, ptrs) =~= released(bits, head).update(p as int, false)) by {
                assert forall|b: int| 0 <= b < bits.len() implies #[trigger] released(bits, ptrs)[b]
                    == released(bits, head).update(p as int, false)[b] by {
                    lemma_names_push(head, p, b);
                }
            }
            lemma_clear_count_update(released(bits, head), p as int, false);
        }
    }

    /// Emptying an inode gives back the blocks that it has.
    proof fn lemma_truncated_space(self, id: int)
        requires
            self.mapped(),
            0 <= id < self.inodes.len(),
        ensures
            self.truncated(id).free_blocks() == self.free_blocks() + self.gather(id).len(),
    {
        self.lemma_gather_tidy(id);
        self.lemma_released_count(self.gather(id));
    }

    /// A block can be claimed exactly if one is free, and takes one.
    pub proof fn lemma_alloc_space(self)
        ensures
            self.alloc_block().1 is Ok <==> self.free_blocks() > 0,
            self.alloc_block().1 is Ok ==> self.alloc_block().0.free_blocks() == self.free_blocks()
                - 1,
            self.alloc_block().1 matches Err(e) ==> e == ErrorView::OutOfSpace
                && self.alloc_block().0 == self,
            self.alloc_block().0.inodes == self.inodes,
    {
        lemma_clear_count_first(self.bitmap);
        lemma_first_clear(self.bitmap, 0);
        let b = first_clear(self.bitmap);
        if b < self.bitmap.len() {
            lemma_clear_count_update(self.bitmap, b, true);
        }
    }

    /// The space that claiming the `k`-th data block takes.
    proof fn lemma_alloc_logical_space(self, id: int, k: int)
        requires
            self.shaped(),
            0 <= id < self.inodes.len(),
            0 <= k < DIRECT_POINTERS + self.words(),
            self.pointer(self.inodes[id], k) == NULL_BLOCK,
            self.inodes[id].indirect == NULL_BLOCK <==> k <= DIRECT_POINTERS,
        ensures
            ({
                let (img, r) = self.alloc_logical_block(id, k);
                let cost = if k == DIRECT_POINTERS {
                    2int
                } else {
                    1int
                };
                &&& r is Ok <==> self.free_blocks() >= cost
                &&& r is Ok ==> {
                    &&& img.free_blocks() == self.free_blocks() - cost
                    &&& img.inodes[id].indirect == NULL_BLOCK <==> k < DIRECT_POINTERS
                }
                &&& r matches Err(e) ==> e == ErrorView::OutOfSpace && img.free_blocks() == 0
            }),
    {
        self.lemma_alloc_space();
        lemma_first_clear(self.bitmap, 0);
        if k == DIRECT_POINTERS {
            let (mid, r) = self.alloc_indirect(id);
            if r is Ok {
                mid.lemma_alloc_space();
            }
        }
    }

    /// Storing blocks in an emptied inode succeeds exactly if there is space.
    proof fn lemma_write_blocks_space(self, id: int, data: Seq<u8>, n: int)
        requires
            self.mapped(),
            0 <= id < self.inodes.len(),
            self.inodes[id].allocated,
            self.inodes[id].indirect == NULL_BLOCK,
            forall|j: int|
                j >= 0 ==> #[trigger] self.pointer(self.inodes[id], j) == NULL_BLOCK,
            0 <= n <= DIRECT_POINTERS + self.words(),
        ensures
            ({
                let (img, r) = self.write_blocks(id, data, n);
                let cost = if n > DIRECT_POINTERS {
                    n + 1
                } else {
                    n
                };
                &&& r is Ok <==> self.free_blocks() >= cost
                &&& r is Ok ==> {
                    &&& img.free_blocks() == self.free_blocks() - cost
                    &&& img.inodes[id].indirect == NULL_BLOCK <==> n <= DIRECT_POINTERS
                }
                &&& r matches Err(e) ==> e == ErrorView::OutOfSpace && img.free_blocks() == 0
            }),
        decreases n,
    {
        if n > 0 {
            self.lemma_write_blocks_space(id, data, n - 1);
            self.lemma_write_blocks(id, data, n - 1);
            let (img, r) = self.write_blocks(id, data, n - 1);
            if r is Ok {
                assert(img.pointer(img.inodes[id], n - 1) == NULL_BLOCK);
                img.lemma_alloc_logical_space(id, n - 1);
            }
        }
    }

    /// In two images whose pointers and bitmaps agree and that differ in inode
    /// `id` alone, the blocks that others than `id` own are the same.
    proof fn lemma_truncated_same(self, img: ImageView, id: int)
        requires
            self.mapped(),
            img.mapped(),
            0 <= id < self.inodes.len(),
            self.keeps_others(img, id),
            forall|s: int| 0 <= s < self.field_count() ==> #[trigger] self.field(id, s)
                == NULL_BLOCK,
        ensures
            released(img.bitmap, img.gather(id)) == self.bitmap,
    {
        let left = released(img.bitmap, img.gather(id));
        assert forall|b: int| 0 <= b < self.bitmap.len() implies #[trigger] left[b]
            == self.bitmap[b] by {
            img.lemma_gather(id, b);
            if self.bitmap[b] {
                let i = choose|i: int| 0 <= i < self.inodes.len() && #[trigger] self.owns(i, b);
                let s = choose|s: int|
                    0 <= s < self.field_count() && #[trigger] self.field(i, s) == b;
                assert(i != id);
                assert(self.keeps(img, i));
                assert(self.inodes[i].allocated);
                self.lemma_keeps(img, i);
                assert(img.field(i, s) == b);
                assert(img.is_field(i, s));
                if img.owns(id, b) {
                    let t = choose|t: int|
                        0 <= t < img.field_count() && #[trigger] img.field(id, t) == b;
                    assert(img.is_field(id, t));
                }
            } else if left[b] {
                let i = choose|i: int| 0 <= i < img.inodes.len() && #[trigger] img.owns(i, b);
                let s = choose|s: int|
                    0 <= s < img.field_count() && #[trigger] img.field(i, s) == b;
                assert(i != id);
                assert(self.keeps(img, i));
                assert(img.inodes[i].allocated);
                self.lemma_keeps(img, i);
                assert(self.field(i, s) == b);
                assert(self.is_field(i, s));
            }
        }
        assert(left =~= self.bitmap);
    }

    /// What the outcome of writing a file inode is.
    proof fn lemma_write_file_space(self, id: u32, data: Seq<u8>)
        requires
            self.orderly(),
            id < self.inodes.len(),
            self.inodes[id as int].allocated,
            self.kind(id) == FileKind::File,
        ensures
            ({
                let (img, r) = self.write_file(id as int, data);
                let need = blocks_needed(data.len() as int, self.bs());
                let have = self.free_blocks() + self.gather(id as int).len();
                &&& r == if data.len() > largest_file(self.bs()) {
                    Err(ErrorView::FileTooLarge)
                } else if need <= have {
                    Ok(data.len())
                } else {
                    Err(ErrorView::OutOfSpace)
                }
                &&& r is Ok ==> {
                    &&& img.gather(id as int).len() == need
                    &&& img.free_blocks() == have - need
                }
                &&& r matches Err(e) ==> {
                    &&& img.free_blocks() + img.gather(id as int).len() == have
                    &&& e == ErrorView::FileTooLarge ==> img.free_blocks() == have
                    &&& e == ErrorView::OutOfSpace ==> img.free_blocks() == 0
                }
            }),
    {
        let i = id as int;
        let bs = self.bs();
        let cleared = self.truncated(i);
        self.lemma_truncated(i);
        self.lemma_truncated_space(i);
        assert forall|s: int|
            0 <= s < cleared.field_count() implies #[trigger] cleared.field(i, s)
            == NULL_BLOCK by {}
        if data.len() > largest_file(bs) {
            lemma_live_null(cleared.inodes[i].direct);
        } else {
            let n = ceil_div(data.len() as int, bs);
            let limit = DIRECT_POINTERS + self.words();
            lemma_ceil_div(data.len() as int, bs, limit);
            assert(limit * bs == largest_file(bs)) by (nonlinear_arith)
                requires
                    limit == 12 + bs / 4,
                    largest_file(bs) == 12 * bs + (bs / 4) * bs,
            ;
            cleared.lemma_write_blocks_space(i, data, n);
            cleared.lemma_write_blocks(i, data, n);
            let (stored, r1) = cleared.write_blocks(i, data, n);
            if r1 is Ok {
                let (img, r) = self.write_file(i, data);
                self.lemma_write_file(id, data);
                stored.lemma_resize(i, data.len() as u64);
                cleared.lemma_keeps_others_trans(stored, img, i);
                cleared.lemma_truncated_same(img, i);
                img.lemma_truncated_space(i);
            } else {
                cleared.lemma_truncated_same(stored, i);
                stored.lemma_truncated_space(i);
            }
        }
    }
}

/// When a write succeeds: the data must not exceed the largest file, and its
/// blocks must fit into the free ones and those that the file has. A success
/// takes exactly the blocks that the data needs.
pub proof fn law_write_outcome(img: ImageView, path: Seq<char>, data: Seq<u8>)
    requires
        img.orderly(),
        img.stat(path) matches Ok(st) && st.kind == FileKind::File,
    ensures
        ({
            let (after, r) = img.write(path, data);
            let need = blocks_needed(data.len() as int, img.bs());
            let have = img.free_blocks() + img.stat(path)->Ok_0.blocks;
            &&& r == if data.len() > largest_file(img.bs()) {
                Err(ErrorView::FileTooLarge)
            } else if need <= have {
                Ok(data.len())
            } else {
                Err(ErrorView::OutOfSpace)
            }
            &&& r is Ok ==> {
                &&& after.stat(path) is Ok
                &&& after.stat(path)->Ok_0.blocks == need
                &&& after.stat(path)->Ok_0.size == data.len()
                &&& after.free_blocks() == have - need
            }
        }),
{
    let id: u32 = img.lookup(path)->Ok_0;
    img.lemma_resolve_in_use(split(path)->Ok_0);
    img.lemma_write_file_space(id, data);
    img.lemma_write_file(id, data);
    img.lemma_file_changed_lookup(img.write(path, data).0, id as int, path);
}

/// What a write that fails leaves behind: a file without bytes. Data that
/// exceed the largest file are refused before a block is claimed, so that the
/// file has none; where the space ran out, the file has all that there was.
pub proof fn law_failed_write_space(img: ImageView, path: Seq<char>, data: Seq<u8>)
    requires
        img.orderly(),
        img.stat(path) matches Ok(st) && st.kind == FileKind::File,
        img.write(path, data).1 is Err,
    ensures
        ({
            let (after, r) = img.write(path, data);
            let have = img.free_blocks() + img.stat(path)->Ok_0.blocks;
            let st = after.stat(path)->Ok_0;
            &&& after.stat(path) is Ok
            &&& st.inode == img.stat(path)->Ok_0.inode
            &&& st.kind == FileKind::File
            &&& st.link_count == img.stat(path)->Ok_0.link_count
            &&& st.size == 0
            &&& r == Err::<nat, ErrorView>(ErrorView::FileTooLarge) ==> st.blocks == 0
                && after.free_blocks() == have
            &&& r == Err::<nat, ErrorView>(ErrorView::OutOfSpace) ==> st.blocks == have
                && after.free_blocks() == 0
        }),
{
    let id: u32 = img.lookup(path)->Ok_0;
    img.lemma_resolve_in_use(split(path)->Ok_0);
    img.lemma_write_file_space(id, data);
    img.lemma_write_file(id, data);
    img.lemma_file_changed_lookup(img.write(path, data).0, id as int, path);
}

/// A removal gives back every block that the removed file or directory had.
pub proof fn law_remove_frees(img: ImageView, path: Seq<char>)
    requires
        img.sound(),
    ensures
        img.unlink(path).1 is Ok ==> img.stat(path) is Ok && img.unlink(path).0.free_blocks()
            == img.free_blocks() + img.stat(path)->Ok_0.blocks,
        img.rmdir(path).1 is Ok ==> img.stat(path) is Ok && img.rmdir(path).0.free_blocks()
            == img.free_blocks() + img.stat(path)->Ok_0.blocks,
{
    img.lemma_remove(path);
    img.lemma_removed(path);
    if let Ok(Some((parts, name))) = split_last(path) {
        if let Ok((d, id)) = img.occupant(parts, name, path) {
            if img.unlink(path).1 is Ok || img.rmdir(path).1 is Ok {
                img.lemma_detach(d, name, id);
                img.lemma_gather_tidy(id as int);
                img.lemma_released_count(img.gather(id as int));
            }
        }
    }
}

impl ImageView {
    /// The directory `d` has an entry that is not in use.
    pub open spec fn has_unused(self, d: int) -> bool {
        exists|k: int, j: int|
            self.is_slot(d, k, j) && (#[trigger] self.entry_at(d, k, j) matches Ok(e) && !e.used)
    }

    /// The number of blocks that the directory `d` takes to grow by one block:
    /// that block, and a block of pointers where it has none and needs one.
    pub open spec fn growth(self, d: int) -> int {
        let node = self.inodes[d];
        if self.covered(node) >= DIRECT_POINTERS && node.indirect == NULL_BLOCK {
            2
        } else {
            1
        }
    }

    /// What the outcome of making an entry in a directory is.
    pub open spec fn room(self, d: int) -> Outcome<()> {
        if forall|i: int| 0 <= i < self.inodes.len() ==> (#[trigger] self.inodes[i]).allocated {
            Err(ErrorView::OutOfInodes)
        } else if self.has_unused(d) {
            Ok(())
        } else if self.covered(self.inodes[d]) >= DIRECT_POINTERS + self.words() {
            Err(ErrorView::FileTooLarge)
        } else if self.slots() == 0 || self.free_blocks() < self.growth(d) {
            Err(ErrorView::OutOfSpace)
        } else {
            Ok(())
        }
    }

    /// Growing a directory succeeds exactly if there is space.
    proof fn lemma_grow_space(self, d: int, e: EntryView)
        requires
            self.sound(),
            self.is_dir(d),
        ensures
            self.grow(d, e).1 == if self.covered(self.inodes[d]) >= DIRECT_POINTERS + self.words() {
                Err(ErrorView::FileTooLarge)
            } else if self.free_blocks() < self.growth(d) {
                Err(ErrorView::OutOfSpace)
            } else {
                Ok(())
            },
            self.grow(d, e).1 is Ok ==> self.grow(d, e).0.free_blocks() == self.free_blocks()
                - self.growth(d),
    {
        let node = self.inodes[d];
        let k = self.covered(node);
        assert(self.node_sound(d));
        assert(self.pointer(node, k) == NULL_BLOCK);
        self.lemma_alloc_space();
        lemma_first_clear(self.bitmap, 0);
        if k >= DIRECT_POINTERS && node.indirect == NULL_BLOCK {
            let (mid, r) = self.alloc_indirect(d);
            if r is Ok {
                mid.lemma_alloc_space();
            }
        }
    }

    /// Entering a name into a directory that can be read succeeds exactly if
    /// there is room.
    proof fn lemma_add_space(self, d: int, name: Seq<char>, target: u32)
        requires
            self.sound(),
            self.is_dir(d),
            self.entries(self.inodes[d]) is Ok,
        ensures
            self.add_entry(d, name, target).1 == if self.has_unused(d) {
                Ok(())
            } else if self.covered(self.inodes[d]) >= DIRECT_POINTERS + self.words() {
                Err(ErrorView::FileTooLarge)
            } else if self.free_blocks() < self.growth(d) {
                Err(ErrorView::OutOfSpace)
            } else {
                Ok(())
            },
            self.add_entry(d, name, target).1 is Ok ==> self.add_entry(
                d,
                name,
                target,
            ).0.free_blocks() == self.free_blocks() - if self.has_unused(d) {
                0
            } else {
                self.growth(d)
            },
    {
        let node = self.inodes[d];
        let n = self.covered(node);
        self.lemma_covered_nonnegative(node);
        self.lemma_search(d, n, unused());
        self.lemma_entries_places(d);
        match self.search(node, n, unused()) {
            Ok(Some((b, j))) => {
                let k = choose|k: int|
                    {
                        &&& 0 <= k < n
                        &&& self.pointer(node, k) == b
                        &&& 0 <= j < self.slots()
                        &&& (#[trigger] self.entry_at(d, k, j) matches Ok(x) && unused()(x))
                    };
                assert(self.is_slot(d, k, j));
                assert(self.entry_at(d, k, j) is Ok);
            },
            Ok(None) => {
                if self.has_unused(d) {
                    let (k, j) = choose|k: int, j: int|
                        self.is_slot(d, k, j) && (#[trigger] self.entry_at(d, k, j) matches Ok(x)
                            && !x.used);
                    assert(self.entry_at(d, k, j) is Ok);
                    assert(unused()(self.entry_at(d, k, j)->Ok_0));
                }
                self.lemma_grow_space(d, used_entry(name, target));
            },
            Err(_) => {
                let (k, j) = choose|k: int, j: int|
                    0 <= k < n && 0 <= j < self.slots() && #[trigger] self.entry_at(d, k, j) is Err;
                assert(self.is_slot(d, k, j));
            },
        }
    }

    /// Making an entry in a directory that can be read succeeds exactly if
    /// there is room.
    pub proof fn lemma_make_space(self, d: u32, name: Seq<char>, kind: FileKind)
        requires
            self.sound(),
            self.is_dir(d as int),
            self.entries(self.inodes[d as int]) is Ok,
        ensures
            match (self.make_in(d, name, kind).1, self.room(d as int)) {
                (Ok(_), Ok(())) => true,
                (Err(e), Err(s)) => e == s,
                _ => false,
            },
            self.make_in(d, name, kind).1 is Ok ==> self.make_in(d, name, kind).0.free_blocks()
                == self.free_blocks() - if self.has_unused(d as int) {
                0
            } else {
                self.growth(d as int)
            },
    {
        let dir = d as int;
        let (mid, r) = self.claim_inode(kind);
        self.lemma_claim_inode(kind);
        if self.slots() == 0 {
            if let Ok(id) = r {
                assert(!self.inodes[id as int].allocated);
            }
        } else if let Ok(id) = r {
            assert(!self.inodes[id as int].allocated);
            assert(self.inodes[dir].allocated);
            self.lemma_same_places_entries(mid, dir);
            mid.lemma_add_space(dir, name, id);
            if self.has_unused(dir) {
                let (k, j) = choose|k: int, j: int|
                    self.is_slot(dir, k, j) && (#[trigger] self.entry_at(dir, k, j) matches Ok(x)
                        && !x.used);
                assert(mid.is_slot(dir, k, j));
                assert(mid.entry_at(dir, k, j) == self.entry_at(dir, k, j));
            }
            if mid.has_unused(dir) {
                let (k, j) = choose|k: int, j: int|
                    mid.is_slot(dir, k, j) && (#[trigger] mid.entry_at(dir, k, j) matches Ok(x)
                        && !x.used);
                assert(mid.is_slot(dir, k, j));
                assert(self.is_slot(dir, k, j));
                assert(mid.entry_at(dir, k, j) == self.entry_at(dir, k, j));
            }
        }
    }
}

/// When making an entry succeeds, the parent being a directory that does not
/// hold the name yet: an inode must be free, and the directory must have an
/// unused entry or be able to grow by a block that entries fit.
pub proof fn law_make_outcome(img: ImageView, path: Seq<char>)
    requires
        img.sound(),
        split_last(path) matches Ok(Some((parts, name))) && encode_utf8(name).len() <= MAX_NAME_LEN
            && img.vacancy(parts, name, path) is Ok,
    ensures
        ({
            let (parts, name) = split_last(path)->Ok_0->Some_0;
            let room = img.room(img.vacancy(parts, name, path)->Ok_0 as int);
            &&& match (img.create(path).1, room) {
                (Ok(_), Ok(())) => true,
                (Err(e), Err(s)) => e == s,
                _ => false,
            }
            &&& match (img.mkdir(path).1, room) {
                (Ok(_), Ok(())) => true,
                (Err(e), Err(s)) => e == s,
                _ => false,
            }
        }),
{
    let (parts, name) = split_last(path)->Ok_0->Some_0;
    let dir: u32 = img.vacancy(parts, name, path)->Ok_0;
    img.lemma_resolve_allocated(parts);
    img.lemma_make_space(dir, name, FileKind::File);
    img.lemma_make_space(dir, name, FileKind::Directory);
}

/// The blocks that making an entry takes: none where the parent has an unused
/// entry, else one, and one more for the pointers with the thirteenth.
pub proof fn law_make_takes(img: ImageView, path: Seq<char>, d: u32)
    requires
        img.sound(),
        split(path) matches Ok(all) && all.len() > 0 && img.resolve(all.drop_last()) == Ok::<
            u32,
            ErrorView,
        >(d),
    ensures
        ({
            let node = img.inodes[d as int];
            let cost: int = if img.has_unused(d as int) {
                0
            } else if img.data_blocks(node) >= 12 && node.indirect == NULL_BLOCK {
                2
            } else {
                1
            };
            &&& img.create(path).1 is Ok ==> img.create(path).0.free_blocks() == img.free_blocks()
                - cost
            &&& img.mkdir(path).1 is Ok ==> img.mkdir(path).0.free_blocks() == img.free_blocks()
                - cost
        }),
{
    let (parts, name) = split_last(path)->Ok_0->Some_0;
    img.lemma_make(path, FileKind::File, ErrorView::InvalidPath(path));
    img.lemma_make(path, FileKind::Directory, ErrorView::AlreadyExists("/"@));
    if img.vacancy(parts, name, path) is Ok {
        img.lemma_dir_blocks(d as int);
        img.lemma_make_space(d, name, FileKind::File);
        img.lemma_make_space(d, name, FileKind::Directory);
    }
}

} // verus!
