//! Writing a file: what is read back, and what stays as it was.

use vstd::prelude::*;
use crate::block::{largest_file, INODE_COUNT};
use crate::error::ErrorView;
use crate::inode::{FileKind, InodeView, NULL_BLOCK};
use crate::model::entry::EntryView;
use crate::model::image::{ceil_div, lemma_ceil_div, ImageView};
use crate::model::range::lemma_first_named;
use crate::model::tree::data_block;
use crate::path::{proper_name, split};

verus! {

impl ImageView {
    /// An inode that is the same is as much in order as before.
    pub proof fn lemma_keeps_node(self, img: ImageView, i: int)
        requires
            self.shaped(),
            self.bs() > 0,
            0 <= i < self.inodes.len(),
            self.node_sound(i),
            self.keeps(img, i),
        ensures
            img.node_sound(i),
    {
        if self.inodes[i].allocated {
            self.lemma_keeps(img, i);
            let node = self.inodes[i];
            assert forall|k: int| 0 <= k < img.covered(node) implies #[trigger] img.pointer(node, k)
                != NULL_BLOCK by {
                assert(img.pointer(img.inodes[i], k) == self.pointer(node, k));
            }
            self.lemma_covered_nonnegative(node);
            if node.kind == FileKind::Directory {
                assert forall|k: int| k >= img.covered(node) implies #[trigger] img.pointer(node, k)
                    == NULL_BLOCK by {
                    assert(img.pointer(img.inodes[i], k) == self.pointer(node, k));
                }
            }
        }
    }

    /// A directory that is the same has the same entries at the same places.
    pub proof fn lemma_keeps_places(self, img: ImageView, d: int)
        requires
            self.shaped(),
            self.bs() > 0,
            self.is_dir(d),
            self.node_sound(d),
            self.keeps(img, d),
        ensures
            img.is_dir(d),
            forall|k: int, j: int| #[trigger] img.is_slot(d, k, j) <==> self.is_slot(d, k, j),
            forall|k: int, j: int|
                self.is_slot(d, k, j) ==> #[trigger] img.entry_at(d, k, j) == self.entry_at(
                    d,
                    k,
                    j,
                ),
            forall|k: int, j: int| #[trigger] img.links(d, k, j) <==> self.links(d, k, j),
    {
        self.lemma_keeps(img, d);
        let node = self.inodes[d];
        assert forall|k: int, j: int| self.is_slot(d, k, j) implies #[trigger] img.entry_at(d, k, j)
            == self.entry_at(d, k, j) by {
            assert(img.pointer(img.inodes[d], k) == self.pointer(node, k));
            assert(self.pointer(node, k) != NULL_BLOCK);
        }
        assert forall|k: int, j: int| #[trigger] img.links(d, k, j) <==> self.links(d, k, j) by {
            assert(img.is_slot(d, k, j) <==> self.is_slot(d, k, j));
            if self.is_slot(d, k, j) {
                assert(img.entry_at(d, k, j) == self.entry_at(d, k, j));
            }
        }
    }

    /// Inode `id` is a file in use, before and after; all other inodes are the
    /// same.
    pub open spec fn file_changed(self, img: ImageView, id: int) -> bool {
        &&& 0 <= id < self.inodes.len()
        &&& self.keeps_others(img, id)
        &&& self.inodes[id].allocated
        &&& self.inodes[id].kind == FileKind::File
        &&& img.inodes[id].allocated
        &&& img.inodes[id].kind == FileKind::File
    }

    /// A change of a file leaves all directories as they are.
    pub proof fn lemma_file_changed_places(self, img: ImageView, id: int)
        requires
            self.sound(),
            self.file_changed(img, id),
        ensures
            forall|d: int| #[trigger] img.is_dir(d) <==> self.is_dir(d),
            forall|d: int, k: int, j: int| #[trigger]
                img.is_slot(d, k, j) <==> self.is_slot(d, k, j),
            forall|d: int, k: int, j: int|
                self.is_slot(d, k, j) ==> #[trigger] img.entry_at(d, k, j) == self.entry_at(
                    d,
                    k,
                    j,
                ),
            forall|d: int, k: int, j: int| #[trigger] img.links(d, k, j) <==> self.links(d, k, j),
    {
        assert forall|d: int| #[trigger] img.is_dir(d) <==> self.is_dir(d) by {
            if 0 <= d < self.inodes.len() && d != id {
                assert(self.keeps(img, d));
            }
        }
        assert forall|d: int, k: int, j: int| {
            &&& #[trigger] img.is_slot(d, k, j) <==> self.is_slot(d, k, j)
            &&& self.is_slot(d, k, j) ==> img.entry_at(d, k, j) == self.entry_at(d, k, j)
            &&& img.links(d, k, j) <==> self.links(d, k, j)
        } by {
            assert(img.is_dir(d) <==> self.is_dir(d));
            if self.is_dir(d) {
                assert(self.keeps(img, d));
                assert(self.node_sound(d));
                self.lemma_keeps_places(img, d);
                assert(img.links(d, k, j) <==> self.links(d, k, j));
                if self.is_slot(d, k, j) {
                    assert(img.entry_at(d, k, j) == self.entry_at(d, k, j));
                }
            }
        }
        assert forall|d: int, k: int, j: int| self.is_slot(d, k, j) implies #[trigger] img.entry_at(
            d,
            k,
            j,
        ) == self.entry_at(d, k, j) by {
            assert(img.is_slot(d, k, j));
        }
        assert forall|d: int, k: int, j: int| #[trigger]
            img.links(d, k, j) <==> self.links(d, k, j) by {
            assert(img.is_slot(d, k, j) <==> self.is_slot(d, k, j));
        }
    }

    /// A change of a file keeps the tables in agreement.
    pub proof fn lemma_file_changed_sound(self, img: ImageView, id: int)
        requires
            self.sound(),
            self.file_changed(img, id),
            img.mapped(),
            img.node_sound(id),
        ensures
            img.sound(),
            self.readable() ==> img.readable(),
    {
        self.lemma_file_changed_places(img, id);
        assert forall|i: int| 0 <= i < img.inodes.len() implies #[trigger] img.node_sound(i) by {
            if i != id {
                assert(self.keeps(img, i));
                assert(self.node_sound(i));
                self.lemma_keeps_node(img, i);
            }
        }
        assert(img.is_dir(0) <==> self.is_dir(0));
        assert forall|d: int, k: int, j: int| #[trigger] img.links(d, k, j) implies {
            let x = img.target(d, k, j);
            0 < x < INODE_COUNT && img.inodes[x as int].allocated
        } by {
            assert(self.links(d, k, j));
            assert(img.entry_at(d, k, j) == self.entry_at(d, k, j));
            let x = self.target(d, k, j) as int;
            if x != id {
                assert(self.keeps(img, x));
            }
        }
        assert forall|d: int, k: int, j: int, d2: int, k2: int, j2: int|
            #[trigger] img.links(d, k, j) && #[trigger] img.links(d2, k2, j2) && img.target(d, k, j)
                == img.target(d2, k2, j2) implies d == d2 && k == k2 && j == j2 by {
            assert(self.links(d, k, j) && self.links(d2, k2, j2));
            assert(img.entry_at(d, k, j) == self.entry_at(d, k, j));
            assert(img.entry_at(d2, k2, j2) == self.entry_at(d2, k2, j2));
        }
        assert forall|d: int, k: int, j: int, k2: int, j2: int|
            #[trigger] img.links(d, k, j) && #[trigger] img.links(d, k2, j2) && img.label(d, k, j)
                == img.label(d, k2, j2) implies k == k2 && j == j2 by {
            assert(self.links(d, k, j) && self.links(d, k2, j2));
            assert(img.entry_at(d, k, j) == self.entry_at(d, k, j));
            assert(img.entry_at(d, k2, j2) == self.entry_at(d, k2, j2));
        }
        assert forall|d: int, k: int, j: int| #[trigger] img.links(d, k, j) implies proper_name(
            img.label(d, k, j),
        ) by {
            assert(self.links(d, k, j));
            assert(img.entry_at(d, k, j) == self.entry_at(d, k, j));
        }
        if self.readable() {
            assert forall|d: int, k: int, j: int|
                img.is_slot(d, k, j) implies #[trigger] img.entry_at(d, k, j) is Ok by {
                assert(self.is_slot(d, k, j));
                assert(self.entry_at(d, k, j) is Ok);
            }
        }
    }

    /// What names lead to is an inode in use.
    pub proof fn lemma_resolve_in_use(self, parts: Seq<Seq<char>>)
        requires
            self.orderly(),
        ensures
            self.resolve(parts) matches Ok(x) ==> x < self.inodes.len()
                && self.inodes[x as int].allocated,
        decreases parts.len(),
    {
        if parts.len() > 0 {
            self.lemma_resolve_in_use(parts.drop_last());
            if let Ok(d) = self.resolve(parts.drop_last()) {
                if self.kind(d) == FileKind::Directory {
                    assert(self.is_dir(d as int));
                    if let Ok(es) = self.entries(self.inodes[d as int]) {
                        lemma_first_named(es, parts.last(), 0);
                    }
                }
            }
        }
    }

    /// An image whose tables agree is orderly.
    pub proof fn lemma_sound_orderly(self)
        requires
            self.sound(),
        ensures
            self.orderly(),
    {
        assert forall|d: int| #[trigger] self.is_dir(d) implies self.entries_lead(d) by {
            if self.entries(self.inodes[d]) is Ok {
                self.lemma_entries_targets(d);
            }
        }
    }

    /// A change of a file keeps an image orderly.
    pub proof fn lemma_file_changed_orderly(self, img: ImageView, id: int)
        requires
            self.orderly(),
            self.file_changed(img, id),
            img.mapped(),
        ensures
            img.orderly(),
    {
        if id != 0 {
            assert(self.keeps(img, 0));
        }
        assert forall|d: int| #[trigger] img.is_dir(d) implies img.entries_lead(d) by {
            assert(self.keeps(img, d));
            assert(self.is_dir(d));
            self.lemma_keeps_entries(img, d);
            if let Ok(es) = img.entries(img.inodes[d]) {
                assert forall|i: int| 0 <= i < es.len() && (#[trigger] es[i]).used implies {
                    &&& es[i].inode < img.inodes.len()
                    &&& img.inodes[es[i].inode as int].allocated
                } by {
                    if es[i].inode != id {
                        assert(self.keeps(img, es[i].inode as int));
                    }
                }
            }
        }
    }

    /// After a change of a file, names lead where they led before.
    pub proof fn lemma_file_changed_resolve(self, img: ImageView, id: int, parts: Seq<Seq<char>>)
        requires
            self.orderly(),
            self.file_changed(img, id),
        ensures
            img.resolve(parts) == self.resolve(parts),
        decreases parts.len(),
    {
        if parts.len() > 0 {
            self.lemma_file_changed_resolve(img, id, parts.drop_last());
            self.lemma_resolve_in_use(parts.drop_last());
            if let Ok(d) = self.resolve(parts.drop_last()) {
                if d != id {
                    assert(self.keeps(img, d as int));
                    self.lemma_keeps_entries(img, d as int);
                }
            }
        }
    }

    /// What storing blocks leaves behind: the data blocks that were stored, and
    /// everything else as it was.
    pub proof fn lemma_write_blocks(self, id: int, data: Seq<u8>, n: int)
        requires
            self.mapped(),
            0 <= id < self.inodes.len(),
            self.inodes[id].allocated,
            forall|j: int|
                j >= 0 ==> #[trigger] self.pointer(self.inodes[id], j) == NULL_BLOCK,
            n >= 0,
        ensures
            ({
                let (img, r) = self.write_blocks(id, data, n);
                &&& img.mapped()
                &&& self.keeps_others(img, id)
                &&& img.inodes[id] == InodeView {
                    direct: img.inodes[id].direct,
                    indirect: img.inodes[id].indirect,
                    ..self.inodes[id]
                }
                &&& r is Ok ==> {
                    &&& forall|j: int|
                        0 <= j < n ==> {
                            let p = #[trigger] img.pointer(img.inodes[id], j);
                            p != NULL_BLOCK && img.blocks[p as int] == data_block(
                                data,
                                j,
                                self.bs(),
                            )
                        }
                    &&& forall|j: int|
                        j >= n ==> #[trigger] img.pointer(img.inodes[id], j) == NULL_BLOCK
                }
            }),
        decreases n,
    {
        if n == 0 {
            assert forall|i: int| 0 <= i < self.inodes.len() && i
                != id implies #[trigger] self.keeps(self, i) by {}
        } else {
            self.lemma_write_blocks(id, data, n - 1);
            let (img1, r1) = self.write_blocks(id, data, n - 1);
            if r1 is Ok {
                let block = data_block(data, n - 1, self.bs());
                assert(img1.pointer(img1.inodes[id], n - 1) == NULL_BLOCK);
                img1.lemma_alloc_logical(id, n - 1);
                let (img2, r2) = img1.alloc_logical_block(id, n - 1);
                self.lemma_keeps_others_trans(img1, img2, id);
                if let Ok(b) = r2 {
                    img2.lemma_fill(id, n - 1, block);
                    let img = img2.with_block(b as int, block);
                    self.lemma_keeps_others_trans(img2, img, id);
                    assert forall|j: int| 0 <= j < n implies {
                        let p = #[trigger] img.pointer(img.inodes[id], j);
                        p != NULL_BLOCK && img.blocks[p as int] == data_block(data, j, self.bs())
                    } by {
                        assert(img.pointer(img.inodes[id], j) == img2.pointer(img2.inodes[id], j));
                        if j < n - 1 {
                            let p = img1.pointer(img1.inodes[id], j);
                            img1.lemma_pointer_bound(id, j);
                            assert(img2.pointer(img2.inodes[id], j) == p);
                            assert(img2.blocks[p as int] == img1.blocks[p as int]);
                        }
                    }
                    assert forall|j: int| j >= n implies #[trigger] img.pointer(img.inodes[id], j)
                        == NULL_BLOCK by {
                        assert(img.pointer(img.inodes[id], j) == img2.pointer(img2.inodes[id], j));
                        assert(img2.pointer(img2.inodes[id], j) == img1.pointer(
                            img1.inodes[id],
                            j,
                        ));
                    }
                }
            }
        }
    }

    /// What the bytes of a file are whose blocks hold `data`.
    pub proof fn lemma_stored_bytes(self, id: u32, data: Seq<u8>)
        requires
            self.shaped(),
            self.bs() > 0,
            id < self.inodes.len(),
            self.inodes[id as int].size == data.len(),
            forall|j: int|
                0 <= j < ceil_div(data.len() as int, self.bs()) ==> {
                    let p = #[trigger] self.pointer(self.inodes[id as int], j);
                    p != NULL_BLOCK && self.blocks[p as int] == data_block(data, j, self.bs())
                },
        ensures
            self.file_bytes(id) == Ok::<Seq<u8>, ErrorView>(data),
    {
        let node = self.inodes[id as int];
        let bs = self.bs();
        self.lemma_covered_nonnegative(node);
        self.lemma_first_missing(node, 0);
        let m = self.first_missing(node);
        if m < self.covered(node) {
            assert(self.pointer(node, m) != NULL_BLOCK);
        }
        assert forall|p: int| 0 <= p < data.len() implies #[trigger] self.contents(node)[p]
            == data[p] by {
            let k = p / bs;
            vstd::arithmetic::div_mod::lemma_fundamental_div_mod(p, bs);
            vstd::arithmetic::mul::lemma_mul_is_commutative(k, bs);
            vstd::arithmetic::div_mod::lemma_div_pos_is_pos(p, bs);
            lemma_ceil_div(data.len() as int, bs, k);
            assert(self.blocks[self.pointer(node, k) as int] == data_block(data, k, bs));
        }
        assert(self.contents(node) =~= data);
    }

    /// A size of zero covers no blocks.
    pub proof fn lemma_empty_covers_none(self, node: InodeView)
        requires
            self.bs() > 0,
            node.size == 0,
        ensures
            self.covered(node) == 0,
    {
        vstd::arithmetic::div_mod::lemma_basic_div(self.bs() - 1, self.bs());
    }

    /// An empty file holds no bytes.
    pub proof fn lemma_empty_bytes(self, id: u32)
        requires
            self.shaped(),
            self.bs() > 0,
            id < self.inodes.len(),
            self.inodes[id as int].size == 0,
        ensures
            self.file_bytes(id) == Ok::<Seq<u8>, ErrorView>(Seq::empty()),
    {
        self.lemma_empty_covers_none(self.inodes[id as int]);
        self.lemma_stored_bytes(id, Seq::empty());
    }

    /// What writing a file inode leaves behind.
    pub proof fn lemma_write_file(self, id: u32, data: Seq<u8>)
        requires
            self.orderly(),
            id < self.inodes.len(),
            self.inodes[id as int].allocated,
            self.kind(id) == FileKind::File,
        ensures
            ({
                let (img, r) = self.write_file(id as int, data);
                &&& img.orderly()
                &&& self.file_changed(img, id as int)
                &&& img.blocks_present(id as int)
                &&& img.inodes[id as int] == InodeView {
                    direct: img.inodes[id as int].direct,
                    indirect: img.inodes[id as int].indirect,
                    size: img.inodes[id as int].size,
                    ..self.inodes[id as int]
                }
                &&& img.inodes[id as int].size == if r is Ok {
                    data.len()
                } else {
                    0
                }
                &&& img.file_bytes(id) == Ok::<Seq<u8>, ErrorView>(
                    if r is Ok {
                        data
                    } else {
                        Seq::empty()
                    },
                )
            }),
    {
        let i = id as int;
        let bs = self.bs();
        let (img, r) = self.write_file(i, data);
        let cleared = self.truncated(i);
        self.lemma_truncated(i);
        let n = ceil_div(data.len() as int, bs);
        if data.len() > largest_file(bs) {
            cleared.lemma_empty_covers_none(cleared.inodes[i]);
            cleared.lemma_empty_bytes(id);
            self.lemma_file_changed_orderly(cleared, i);
        } else {
            lemma_ceil_div(data.len() as int, bs, 0);
            cleared.lemma_write_blocks(i, data, n);
            let (stored, r1) = cleared.write_blocks(i, data, n);
            self.lemma_keeps_others_trans(cleared, stored, i);
            if r1 is Ok {
                lemma_largest_file(bs);
                stored.lemma_resize(i, data.len() as u64);
                self.lemma_keeps_others_trans(stored, img, i);
                assert forall|j: int| 0 <= j < n implies {
                    let p = #[trigger] img.pointer(img.inodes[i], j);
                    p != NULL_BLOCK && img.blocks[p as int] == data_block(data, j, bs)
                } by {
                    assert(img.pointer(img.inodes[i], j) == stored.pointer(stored.inodes[i], j));
                }
                img.lemma_stored_bytes(id, data);
                self.lemma_file_changed_orderly(img, i);
            } else {
                img.lemma_empty_covers_none(img.inodes[i]);
                img.lemma_empty_bytes(id);
                self.lemma_file_changed_orderly(img, i);
            }
        }
    }

    /// Writing a file inode keeps the tables in agreement.
    pub proof fn lemma_write_file_sound(self, id: u32, data: Seq<u8>)
        requires
            self.sound(),
            id < self.inodes.len(),
            self.inodes[id as int].allocated,
            self.kind(id) == FileKind::File,
        ensures
            self.write_file(id as int, data).0.sound(),
            self.readable() ==> self.write_file(id as int, data).0.readable(),
    {
        let img = self.write_file(id as int, data).0;
        self.lemma_sound_orderly();
        self.lemma_write_file(id, data);
        assert(self.node_sound(id as int));
        assert(img.node_sound(id as int));
        self.lemma_file_changed_sound(img, id as int);
    }
}

/// The largest file has a size of 64 bits.
pub proof fn lemma_largest_file(bs: int)
    requires
        0 <= bs <= u32::MAX,
    ensures
        largest_file(bs) <= u64::MAX,
{
    assert(largest_file(bs) <= u64::MAX) by (nonlinear_arith)
        requires
            0 <= bs <= u32::MAX,
    ;
}

impl ImageView {
    /// The listing of entries depends on the kinds of the inodes alone.
    pub proof fn lemma_listing_same(self, img: ImageView, es: Seq<EntryView>)
        requires
            forall|i: int|
                0 <= i < es.len() && (#[trigger] es[i]).used ==> img.kind(es[i].inode)
                    == self.kind(es[i].inode),
        ensures
            img.listing(es) == self.listing(es),
        decreases es.len(),
    {
        if es.len() > 0 {
            let head = es.drop_last();
            assert forall|i: int| 0 <= i < head.len() && (#[trigger] head[i]).used implies img.kind(
                head[i].inode,
            ) == self.kind(head[i].inode) by {
                assert(head[i] == es[i]);
            }
            self.lemma_listing_same(img, head);
            assert(es[es.len() - 1] == es.last());
        }
    }

    /// After a change of a file, directories are listed as before.
    pub proof fn lemma_file_changed_list(self, img: ImageView, id: int, d: u32)
        requires
            self.orderly(),
            self.file_changed(img, id),
            self.is_dir(d as int),
        ensures
            img.list(d) == self.list(d),
    {
        assert(self.keeps(img, d as int));
        self.lemma_keeps_entries(img, d as int);
        if let Ok(es) = self.entries(self.inodes[d as int]) {
            assert forall|i: int| 0 <= i < es.len() && (#[trigger] es[i]).used implies img.kind(
                es[i].inode,
            ) == self.kind(es[i].inode) by {
                if es[i].inode != id {
                    assert(self.keeps(img, es[i].inode as int));
                }
            }
            self.lemma_listing_same(img, es);
        }
    }

    /// After a change of a file, paths name what they named before.
    pub proof fn lemma_file_changed_lookup(self, img: ImageView, id: int, path: Seq<char>)
        requires
            self.orderly(),
            self.file_changed(img, id),
        ensures
            img.lookup(path) == self.lookup(path),
            self.lookup(path) matches Ok(x) ==> x < self.inodes.len()
                && self.inodes[x as int].allocated,
    {
        if let Ok(parts) = split(path) {
            self.lemma_file_changed_resolve(img, id, parts);
            self.lemma_resolve_in_use(parts);
        }
    }

    /// After a change of a file, everything else reads as before.
    pub proof fn lemma_file_changed_elsewhere(self, img: ImageView, id: int, path: Seq<char>)
        requires
            self.orderly(),
            self.file_changed(img, id),
            self.lookup(path) matches Ok(x) ==> x != id,
        ensures
            img.read(path) == self.read(path),
            img.stat(path) == self.stat(path),
            img.readdir(path) == self.readdir(path),
    {
        self.lemma_file_changed_lookup(img, id, path);
        if let Ok(x) = self.lookup(path) {
            assert(self.keeps(img, x as int));
            self.lemma_keeps(img, x as int);
            self.lemma_keeps_bytes(img, x);
            if self.kind(x) == FileKind::Directory {
                self.lemma_file_changed_list(img, id, x);
            }
        }
    }

    /// Writing changes the file that the path names, or nothing.
    proof fn lemma_write(self, path: Seq<char>, data: Seq<u8>)
        requires
            self.orderly(),
        ensures
            ({
                let (img, r) = self.write(path, data);
                match self.lookup(path) {
                    Ok(id) => {
                        &&& id < self.inodes.len()
                        &&& self.inodes[id as int].allocated
                        &&& if self.kind(id) == FileKind::File {
                            (img, r) == self.write_file(id as int, data)
                        } else {
                            img == self && r is Err
                        }
                    },
                    Err(_) => img == self && r is Err,
                }
            }),
    {
        if let Ok(parts) = split(path) {
            self.lemma_resolve_in_use(parts);
        }
    }
}

/// What is read after a write is what was written, for every file and every
/// data that a write accepts.
pub proof fn law_read_after_write(img: ImageView, path: Seq<char>, data: Seq<u8>)
    requires
        img.orderly(),
        img.write(path, data).1 is Ok,
    ensures
        img.write(path, data).0.read(path) == Ok::<Seq<u8>, ErrorView>(data),
{
    img.lemma_write(path, data);
    let id: u32 = img.lookup(path)->Ok_0;
    let after = img.write(path, data).0;
    img.lemma_write_file(id, data);
    img.lemma_file_changed_lookup(after, id as int, path);
}

/// A write that fails on a file leaves the file empty.
pub proof fn law_failed_write_empties(img: ImageView, path: Seq<char>, data: Seq<u8>)
    requires
        img.orderly(),
        img.read(path) is Ok,
        img.write(path, data).1 is Err,
    ensures
        img.write(path, data).0.read(path) == Ok::<Seq<u8>, ErrorView>(Seq::empty()),
{
    img.lemma_write(path, data);
    let id: u32 = img.lookup(path)->Ok_0;
    let after = img.write(path, data).0;
    img.lemma_write_file(id, data);
    img.lemma_file_changed_lookup(after, id as int, path);
}

/// A write, successful or not, changes no name: every path names the inode
/// that it named before, or fails as before.
pub proof fn law_write_keeps_names(img: ImageView, path: Seq<char>, data: Seq<u8>, q: Seq<char>)
    requires
        img.orderly(),
    ensures
        img.write(path, data).0.lookup(q) == img.lookup(q),
{
    img.lemma_write(path, data);
    if let Ok(id) = img.lookup(path) {
        if img.kind(id) == FileKind::File {
            img.lemma_write_file(id, data);
            img.lemma_file_changed_lookup(img.write(path, data).0, id as int, q);
        }
    }
}

/// A write, successful or not, changes no other file and no directory: what
/// any other path reads, shows or lists stays the same.
pub proof fn law_write_keeps_others(img: ImageView, path: Seq<char>, data: Seq<u8>, q: Seq<char>)
    requires
        img.orderly(),
        img.lookup(q) != img.lookup(path) || img.lookup(q) is Err,
    ensures
        img.write(path, data).0.read(q) == img.read(q),
        img.write(path, data).0.stat(q) == img.stat(q),
        img.write(path, data).0.readdir(q) == img.readdir(q),
{
    img.lemma_write(path, data);
    if let Ok(id) = img.lookup(path) {
        if img.kind(id) == FileKind::File {
            img.lemma_write_file(id, data);
            img.lemma_file_changed_elsewhere(img.write(path, data).0, id as int, q);
        }
    }
}

/// A file of blocks without bytes takes no data but none: it is emptied, and any
/// data is too large.
pub proof fn law_write_without_bytes(img: ImageView, path: Seq<char>, data: Seq<u8>)
    requires
        img.bs() == 0,
        img.lookup(path) matches Ok(id) && img.kind(id) == FileKind::File,
        img.shaped(),
        img.lookup_readable(path),
    ensures
        img.write(path, data) == (
            img.truncated(img.lookup(path)->Ok_0 as int),
            if data.len() == 0 {
                Ok::<nat, ErrorView>(0)
            } else {
                Err(ErrorView::FileTooLarge)
            },
        ),
{
    let id: u32 = img.lookup(path)->Ok_0;
    assert(id < img.inodes.len());
    assert(img.write(path, data).0.inodes =~= img.truncated(id as int).inodes);
}

/// A write, successful or not, keeps the tables in agreement.
pub proof fn law_write_sound(img: ImageView, path: Seq<char>, data: Seq<u8>)
    requires
        img.sound(),
    ensures
        img.write(path, data).0.sound(),
{
    img.lemma_sound_orderly();
    img.lemma_write(path, data);
    if let Ok(id) = img.lookup(path) {
        if img.kind(id) == FileKind::File {
            img.lemma_write_file_sound(id, data);
        }
    }
}

/// A write, successful or not, keeps a healthy image healthy.
pub proof fn law_write_healthy(img: ImageView, path: Seq<char>, data: Seq<u8>)
    requires
        img.healthy(),
    ensures
        img.write(path, data).0.healthy(),
{
    img.lemma_sound_orderly();
    img.lemma_write(path, data);
    if let Ok(id) = img.lookup(path) {
        if img.kind(id) == FileKind::File {
            let after = img.write(path, data).0;
            img.lemma_write_file(id, data);
            img.lemma_write_file_sound(id, data);
            assert forall|i: int|
                0 <= i < after.inodes.len() && (#[trigger] after.inodes[i]).allocated implies
                after.reachable(i) by {
                if i != id {
                    assert(img.keeps(after, i));
                }
                assert(img.inodes[i].allocated);
                let parts = choose|parts: Seq<Seq<char>>| #[trigger] img.leads_to(parts, i);
                img.lemma_file_changed_resolve(after, id as int, parts);
                assert(after.leads_to(parts, i));
            }
        }
    }
}

} // verus!
