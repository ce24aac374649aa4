//! Metadata: what `stat` shows, and how the sizes of directories come about.

use vstd::prelude::*;
use crate::error::ErrorView;
use crate::inode::{FileKind, InodeView, DIRECT_POINTERS, NULL_BLOCK};
use crate::laws::count::{
    lemma_live_tally, lemma_tally_concat, lemma_tally_none, lemma_tally_same, tally, used_and,
};
use crate::laws::remove::law_remove_sound;
use crate::laws::write::law_write_sound;
use crate::model::dir::unused;
use crate::model::image::{lemma_ceil_div, live, new_image, ImageView};
use crate::model::sound::law_fresh_healthy;
use crate::path::{split, split_last};

verus! {

/// The test that every pointer meets.
pub open spec fn any() -> spec_fn(u32) -> bool {
    |p: u32| true
}

/// The test for pointers in use.
pub open spec fn in_use_test() -> spec_fn(u32) -> bool {
    |p: u32| p != NULL_BLOCK
}

/// Everything meets the test that everything meets.
proof fn lemma_tally_any(s: Seq<u32>)
    ensures
        tally(s, any()) == s.len(),
    decreases s.len(),
{
    if s.len() > 0 {
        lemma_tally_any(s.drop_last());
    }
}

/// Pointers of which just the first `n` are in use.
proof fn lemma_tally_leading(s: Seq<u32>, n: int)
    requires
        0 <= n <= s.len(),
        forall|k: int| 0 <= k < s.len() ==> (#[trigger] s[k] != NULL_BLOCK <==> k < n),
    ensures
        tally(s, in_use_test()) == n,
    decreases s.len(),
{
    if s.len() > 0 {
        let head = s.drop_last();
        assert forall|k: int| 0 <= k < head.len() implies (#[trigger] head[k] != NULL_BLOCK <==> k
            < n) by {
            assert(head[k] == s[k]);
        }
        let last = s[s.len() - 1];
        if n == s.len() {
            assert(last != NULL_BLOCK);
            lemma_tally_leading(head, n - 1);
        } else {
            assert(last == NULL_BLOCK);
            lemma_tally_leading(head, n);
        }
    }
}

impl ImageView {
    /// The pointers to data blocks of `node`, used or not.
    pub open spec fn data_pointers(self, node: InodeView) -> Seq<u32> {
        Seq::new((12 + self.bs() / 4) as nat, |k: int| self.pointer(node, k))
    }

    /// The number of data blocks of `node`, its block of pointers not counted.
    pub open spec fn data_blocks(self, node: InodeView) -> nat {
        tally(self.data_pointers(node), in_use_test())
    }

    /// The number of blocks of pointers of `node`.
    pub open spec fn pointer_blocks(self, node: InodeView) -> nat {
        if node.indirect == NULL_BLOCK {
            0
        } else {
            1
        }
    }

    /// An inode in use refers to its data blocks and its block of pointers.
    pub proof fn lemma_gather_len(self, i: int)
        requires
            self.shaped(),
            0 <= i < self.inodes.len(),
        ensures
            self.gather(i).len() == if self.inodes[i].allocated {
                self.data_blocks(self.inodes[i]) + self.pointer_blocks(self.inodes[i])
            } else {
                0
            },
    {
        let node = self.inodes[i];
        let fields = self.pointer_fields(node);
        let data = self.data_pointers(node);
        let test = in_use_test();
        if node.allocated {
            lemma_tally_any(live(fields));
            lemma_live_tally(fields, any());
            lemma_tally_same(fields, used_and(any()), test);
            let rest = data.skip(DIRECT_POINTERS as int);
            assert(data =~= node.direct + rest);
            lemma_tally_concat(node.direct, rest, test);
            if node.indirect == NULL_BLOCK {
                assert forall|k: int| 0 <= k < rest.len() implies !test(#[trigger] rest[k]) by {
                    assert(rest[k] == self.pointer(node, DIRECT_POINTERS + k));
                }
                lemma_tally_none(rest, test);
            } else {
                let one = seq![node.indirect];
                assert(fields =~= node.direct + one + rest);
                lemma_tally_concat(node.direct, one, test);
                lemma_tally_concat(node.direct + one, rest, test);
                assert(one.drop_last() =~= Seq::empty());
                reveal_with_fuel(tally, 2);
            }
        }
    }

    /// In an image whose tables agree, a directory has the data blocks that its
    /// size covers.
    pub proof fn lemma_dir_blocks(self, d: int)
        requires
            self.sound(),
            self.is_dir(d),
        ensures
            self.data_blocks(self.inodes[d]) == self.covered(self.inodes[d]),
            self.covered(self.inodes[d]) <= 12 + self.bs() / 4,
    {
        let node = self.inodes[d];
        let n = self.covered(node);
        assert(self.node_sound(d));
        self.lemma_covered_nonnegative(node);
        self.lemma_present_bound(d);
        assert forall|k: int| 0 <= k < self.data_pointers(node).len() implies (
        #[trigger] self.data_pointers(node)[k] != NULL_BLOCK <==> k < n) by {
            assert(self.data_pointers(node)[k] == self.pointer(node, k));
        }
        lemma_tally_leading(self.data_pointers(node), n);
    }

    /// The tables agree, and the size of every directory is that of its blocks.
    pub open spec fn regular(self) -> bool {
        &&& self.sound()
        &&& forall|d: int| #[trigger]
            self.is_dir(d) ==> self.inodes[d].size == self.bs() * self.data_blocks(self.inodes[d])
    }

    /// The size of a directory is that of its blocks exactly if it covers them
    /// to the last byte.
    proof fn lemma_whole_size(self, d: int)
        requires
            self.sound(),
            self.is_dir(d),
        ensures
            self.inodes[d].size == self.bs() * self.data_blocks(self.inodes[d])
                <==> self.inodes[d].size as int % self.bs() == 0,
    {
        let size = self.inodes[d].size as int;
        let bs = self.bs();
        let n = self.covered(self.inodes[d]);
        self.lemma_dir_blocks(d);
        vstd::arithmetic::div_mod::lemma_fundamental_div_mod(size, bs);
        vstd::arithmetic::div_mod::lemma_fundamental_div_mod(size + bs - 1, bs);
        let q = size / bs;
        if size % bs == 0 {
            vstd::arithmetic::div_mod::lemma_fundamental_div_mod_converse(
                size + bs - 1,
                bs,
                q,
                bs - 1,
            );
        }
        if size == bs * n {
            vstd::arithmetic::div_mod::lemma_fundamental_div_mod_converse(size, bs, n, 0);
        }
    }

    /// An image whose directories have whole sizes is regular.
    proof fn lemma_regular(self)
        requires
            self.sound(),
            forall|d: int| #[trigger] self.is_dir(d) ==> self.inodes[d].size as int % self.bs() == 0,
        ensures
            self.regular(),
    {
        assert forall|d: int| #[trigger] self.is_dir(d) implies self.inodes[d].size == self.bs()
            * self.data_blocks(self.inodes[d]) by {
            self.lemma_whole_size(d);
        }
    }

    /// The directories of a regular image have whole sizes.
    proof fn lemma_regular_whole(self, d: int)
        requires
            self.regular(),
            self.is_dir(d),
        ensures
            self.inodes[d].size as int % self.bs() == 0,
    {
        self.lemma_whole_size(d);
    }

    /// Claiming a data block keeps kinds, sizes and what is in use.
    proof fn lemma_alloc_sizes(self, id: int, k: int, i: int)
        requires
            self.shaped(),
            0 <= id < self.inodes.len(),
            0 <= i < self.inodes.len(),
        ensures
            ({
                let img = self.alloc_logical_block(id, k).0;
                &&& img.inodes.len() == self.inodes.len()
                &&& img.sb == self.sb
                &&& img.inodes[i].size == self.inodes[i].size
                &&& img.inodes[i].kind == self.inodes[i].kind
                &&& img.inodes[i].allocated == self.inodes[i].allocated
            }),
    {
    }

    /// The sizes after an entry was added.
    pub proof fn lemma_add_sizes(self, d: int, name: Seq<char>, target: u32, i: int)
        requires
            self.sound(),
            self.is_dir(d),
            self.entries(self.inodes[d]) is Ok,
            0 <= i < self.inodes.len(),
        ensures
            ({
                let (img, r) = self.add_entry(d, name, target);
                &&& img.inodes.len() == self.inodes.len()
                &&& img.sb == self.sb
                &&& img.inodes[i].size == self.inodes[i].size + if i == d && r is Ok
                    && !self.has_unused(d) {
                    self.bs()
                } else {
                    0
                }
                &&& img.inodes[i].kind == self.inodes[i].kind
                &&& img.inodes[i].allocated == self.inodes[i].allocated
            }),
    {
        let node = self.inodes[d];
        let n = self.covered(node);
        self.lemma_covered_nonnegative(node);
        self.lemma_search(d, n, unused());
        self.lemma_entries_places(d);
        self.lemma_dir_blocks(d);
        self.lemma_size_bound(node);
        self.lemma_alloc_sizes(d, n, i);
        self.lemma_alloc_sizes(d, n, d);
        match self.search(node, n, unused()) {
            Ok(Some((b, j0))) => {
                let k0 = choose|k: int|
                    {
                        &&& 0 <= k < n
                        &&& self.pointer(node, k) == b
                        &&& 0 <= j0 < self.slots()
                        &&& (#[trigger] self.entry_at(d, k, j0) matches Ok(x) && unused()(x))
                    };
                assert(self.is_slot(d, k0, j0));
                assert(self.entry_at(d, k0, j0) is Ok);
                assert(self.has_unused(d));
            },
            Ok(None) => {
                if self.has_unused(d) {
                    let (k, j) = choose|k: int, j: int|
                        self.is_slot(d, k, j) && (#[trigger] self.entry_at(d, k, j) matches Ok(x)
                            && !x.used);
                    assert(self.entry_at(d, k, j) is Ok);
                    assert(unused()(self.entry_at(d, k, j)->Ok_0));
                }
            },
            Err(_) => {
                let (k, j) = choose|k: int, j: int|
                    0 <= k < n && 0 <= j < self.slots() && #[trigger] self.entry_at(d, k, j) is Err;
                assert(self.is_slot(d, k, j));
            },
        }
    }

    /// The sizes after an entry was made.
    pub proof fn lemma_make_sizes(self, dir: u32, name: Seq<char>, kind: FileKind, i: int)
        requires
            self.sound(),
            self.is_dir(dir as int),
            self.entries(self.inodes[dir as int]) is Ok,
            0 <= i < self.inodes.len(),
        ensures
            ({
                let (img, r) = self.make_in(dir, name, kind);
                &&& img.inodes.len() == self.inodes.len()
                &&& img.sb == self.sb
                &&& self.inodes[i].allocated ==> {
                    &&& img.inodes[i].size == self.inodes[i].size + if i == dir && r is Ok
                        && !self.has_unused(dir as int) {
                        self.bs()
                    } else {
                        0
                    }
                    &&& img.inodes[i].kind == self.inodes[i].kind
                    &&& img.inodes[i].allocated
                }
                &&& !self.inodes[i].allocated ==> img.inodes[i].size == 0 || !img.inodes[i].allocated
            }),
    {
        let d = dir as int;
        let (mid, r) = self.claim_inode(kind);
        self.lemma_claim_inode(kind);
        if r is Ok && self.slots() > 0 {
            assert(self.inodes[d].allocated);
            self.lemma_same_places_entries(mid, d);
            mid.lemma_add_sizes(d, name, r->Ok_0, i);
            if self.has_unused(d) {
                let (k, j) = choose|k: int, j: int|
                    self.is_slot(d, k, j) && (#[trigger] self.entry_at(d, k, j) matches Ok(x)
                        && !x.used);
                assert(mid.is_slot(d, k, j));
                assert(mid.entry_at(d, k, j) == self.entry_at(d, k, j));
            }
            if mid.has_unused(d) {
                let (k, j) = choose|k: int, j: int|
                    mid.is_slot(d, k, j) && (#[trigger] mid.entry_at(d, k, j) matches Ok(x)
                        && !x.used);
                assert(mid.is_slot(d, k, j));
                assert(self.is_slot(d, k, j));
                assert(mid.entry_at(d, k, j) == self.entry_at(d, k, j));
            }
        }
    }
}

impl ImageView {
    /// Making an entry keeps an image regular.
    proof fn lemma_make_regular(self, path: Seq<char>, kind: FileKind, at_root: ErrorView)
        requires
            self.regular(),
        ensures
            self.make(path, kind, at_root).0.regular(),
    {
        let img = self.make(path, kind, at_root).0;
        self.lemma_make(path, kind, at_root);
        self.lemma_made(path, kind, at_root);
        if let Ok(Some((parts, name))) = split_last(path) {
            if let Ok(dir) = self.vacancy(parts, name, path) {
                if img != self {
                    assert forall|d: int| #[trigger] img.is_dir(d) implies img.inodes[d].size as int
                        % img.bs() == 0 by {
                        self.lemma_make_sizes(dir, name, kind, d);
                        if self.inodes[d].allocated {
                            assert(self.is_dir(d));
                            self.lemma_regular_whole(d);
                            vstd::arithmetic::div_mod::lemma_mod_add_multiples_vanish(
                                self.inodes[d].size as int,
                                self.bs(),
                            );
                        } else {
                            vstd::arithmetic::div_mod::lemma_small_mod(0, self.bs() as nat);
                        }
                    }
                    img.lemma_regular();
                }
            }
        }
    }
}

/// What `stat` shows is what the inode says that the path leads to: its id, its
/// kind, its size and its links. The blocks are the data blocks that it refers
/// to and its block of pointers.
pub proof fn law_stat_fields(img: ImageView, path: Seq<char>)
    requires
        img.shaped(),
        img.lookup(path) matches Ok(id) ==> id < img.inodes.len(),
    ensures
        match (img.stat(path), img.lookup(path)) {
            (Ok(st), Ok(id)) => {
                let node = img.inodes[id as int];
                &&& st.inode == node.id
                &&& st.kind == node.kind
                &&& st.size == node.size
                &&& st.link_count == node.link_count
                &&& st.blocks == if node.allocated {
                    img.data_blocks(node) + img.pointer_blocks(node)
                } else {
                    0
                }
            },
            (Err(e), Err(f)) => e == f,
            _ => false,
        },
{
    if let Ok(id) = img.lookup(path) {
        img.lemma_gather_len(id as int);
    }
}

/// The size of a directory is that of its data blocks: no more than they hold,
/// and more than one block less would hold. In a regular image it is the block
/// size times the number of its data blocks.
pub proof fn law_directory_size(img: ImageView, path: Seq<char>)
    requires
        img.sound(),
        img.stat(path) matches Ok(st) && img.kind(img.lookup(path)->Ok_0) == FileKind::Directory,
    ensures
        ({
            let st = img.stat(path)->Ok_0;
            let node = img.inodes[img.lookup(path)->Ok_0 as int];
            let n = img.data_blocks(node) as int;
            &&& st.kind == FileKind::Directory
            &&& st.size <= n * img.bs()
            &&& n > 0 ==> st.size > (n - 1) * img.bs()
            &&& st.blocks == n + img.pointer_blocks(node)
            &&& img.regular() ==> st.size == n * img.bs()
        }),
{
    let id: u32 = img.lookup(path)->Ok_0;
    let node = img.inodes[id as int];
    img.lemma_resolve_allocated(split(path)->Ok_0);
    img.lemma_gather_len(id as int);
    assert(img.is_dir(id as int));
    img.lemma_dir_blocks(id as int);
    let n = img.covered(node);
    lemma_ceil_div(node.size as int, img.bs(), n);
    lemma_ceil_div(node.size as int, img.bs(), n - 1);
    assert(img.bs() * n == n * img.bs()) by (nonlinear_arith);
}

/// The size of a file is no more than its data blocks hold.
pub proof fn law_file_blocks(img: ImageView, path: Seq<char>)
    requires
        img.sound(),
        img.stat(path) matches Ok(st) && img.kind(img.lookup(path)->Ok_0) == FileKind::File,
    ensures
        ({
            let st = img.stat(path)->Ok_0;
            let node = img.inodes[img.lookup(path)->Ok_0 as int];
            &&& st.kind == FileKind::File
            &&& st.blocks == img.data_blocks(node) + img.pointer_blocks(node)
            &&& forall|k: int|
                0 <= k && k * img.bs() < st.size ==> #[trigger] img.pointer(node, k) != NULL_BLOCK
        }),
{
    let id: u32 = img.lookup(path)->Ok_0;
    let node = img.inodes[id as int];
    img.lemma_resolve_allocated(split(path)->Ok_0);
    img.lemma_gather_len(id as int);
    assert(img.node_sound(id as int));
    assert forall|k: int| 0 <= k && k * img.bs() < node.size implies #[trigger] img.pointer(node, k)
        != NULL_BLOCK by {
        lemma_ceil_div(node.size as int, img.bs(), k);
    }
}

/// Making an entry raises the size of the parent by exactly one block if the
/// parent had no unused entry, and leaves it as it is otherwise. A failure
/// leaves it as it is.
pub proof fn law_make_grows(img: ImageView, path: Seq<char>, parent: Seq<char>)
    requires
        img.sound(),
        split_last(path) matches Ok(Some((parts, _))) && img.lookup(parent) == img.resolve(parts),
        img.stat(parent) is Ok,
    ensures
        ({
            let size = img.stat(parent)->Ok_0.size;
            let d = img.lookup(parent)->Ok_0 as int;
            let gain = if img.has_unused(d) {
                0
            } else {
                img.bs()
            };
            &&& img.create(path).0.stat(parent) is Ok
            &&& img.create(path).0.stat(parent)->Ok_0.size == size + if img.create(path).1 is Ok {
                gain
            } else {
                0
            }
            &&& img.mkdir(path).0.stat(parent) is Ok
            &&& img.mkdir(path).0.stat(parent)->Ok_0.size == size + if img.mkdir(path).1 is Ok {
                gain
            } else {
                0
            }
        }),
{
    let (parts, name) = split_last(path)->Ok_0->Some_0;
    let file = ErrorView::InvalidPath(path);
    let dir = ErrorView::AlreadyExists("/"@);
    img.lemma_make(path, FileKind::File, file);
    img.lemma_make(path, FileKind::Directory, dir);
    img.lemma_made_names(path, FileKind::File, file, parent);
    img.lemma_made_names(path, FileKind::Directory, dir, parent);
    if let Ok(d) = img.vacancy(parts, name, path) {
        assert(img.inodes[d as int].allocated);
        img.lemma_make_sizes(d, name, FileKind::File, d as int);
        img.lemma_make_sizes(d, name, FileKind::Directory, d as int);
    }
}

/// A fresh image is regular.
pub proof fn law_fresh_regular(block_size: nat, num_blocks: nat)
    requires
        block_size <= u32::MAX,
        num_blocks <= u32::MAX,
    ensures
        new_image(block_size, num_blocks) matches Ok(img) ==> img.regular(),
{
    if let Ok(img) = new_image(block_size, num_blocks) {
        law_fresh_healthy(block_size, num_blocks);
        vstd::arithmetic::div_mod::lemma_small_mod(0, img.bs() as nat);
        img.lemma_regular();
    }
}

/// Making an entry, successful or not, keeps an image regular.
pub proof fn law_make_regular(img: ImageView, path: Seq<char>)
    requires
        img.regular(),
    ensures
        img.create(path).0.regular(),
        img.mkdir(path).0.regular(),
{
    img.lemma_make_regular(path, FileKind::File, ErrorView::InvalidPath(path));
    img.lemma_make_regular(path, FileKind::Directory, ErrorView::AlreadyExists("/"@));
}

/// A write, successful or not, keeps an image regular.
pub proof fn law_write_regular(img: ImageView, path: Seq<char>, data: Seq<u8>)
    requires
        img.regular(),
    ensures
        img.write(path, data).0.regular(),
{
    let after = img.write(path, data).0;
    law_write_sound(img, path, data);
    img.lemma_sound_orderly();
    if let Ok(id) = img.lookup(path) {
        img.lemma_resolve_allocated(split(path)->Ok_0);
        if img.kind(id) == FileKind::File {
            img.lemma_write_file(id, data);
            assert forall|d: int| #[trigger] after.is_dir(d) implies after.inodes[d].size as int
                % after.bs() == 0 by {
                if d != id {
                    assert(img.keeps(after, d));
                    assert(img.is_dir(d));
                    img.lemma_regular_whole(d);
                }
            }
            after.lemma_regular();
        }
    }
}

/// A removal, successful or not, keeps an image regular.
pub proof fn law_remove_regular(img: ImageView, path: Seq<char>)
    requires
        img.regular(),
    ensures
        img.unlink(path).0.regular(),
        img.rmdir(path).0.regular(),
{
    law_remove_sound(img, path);
    img.lemma_remove(path);
    img.lemma_removed(path);
    if let Ok(Some((parts, name))) = split_last(path) {
        if let Ok((d, id)) = img.occupant(parts, name, path) {
            if img.unlink(path).1 is Ok || img.rmdir(path).1 is Ok {
                let after = img.detach(d, name, id).0;
                img.lemma_detach(d, name, id);
                assert forall|x: int| #[trigger] after.is_dir(x) implies after.inodes[x].size as int
                    % after.bs() == 0 by {
                    assert(x != id);
                    assert(img.is_dir(x));
                    img.lemma_regular_whole(x);
                }
                after.lemma_regular();
            }
        }
    }
}

} // verus!
