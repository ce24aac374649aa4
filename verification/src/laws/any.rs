//! The operations in any image, also in one whose tables do not agree.

use vstd::prelude::*;
use vstd::utf8::encode_utf8;
use crate::block::INODE_COUNT;
use crate::codec::splice;
use crate::error::ErrorView;
use crate::inode::{FileKind, InodeView, DIRECT_POINTERS, NULL_BLOCK};
use crate::laws::listing::lists;
use crate::laws::places::place_bytes;
use crate::model::dir::{block_entries, is_named, named, search_block, slot, unused};
use crate::model::entry::{decode_entry, empty_entry, entry_bytes, used_entry, EntryView};
use crate::model::image::{lemma_ceil_div, lemma_first_clear, ImageView};
use crate::model::range::{lemma_block_entries, lemma_first_named};
use crate::model::tree::ItemView;
use crate::path::split;

verus! {

/// Position `p` is the first of `es` whose entry is wanted.
pub open spec fn first_wanted(
    es: Seq<EntryView>,
    p: int,
    wanted: spec_fn(EntryView) -> bool,
) -> bool {
    &&& 0 <= p < es.len()
    &&& wanted(es[p])
    &&& forall|q: int| 0 <= q < p ==> !wanted(#[trigger] es[q])
}

/// What a search of a block that can be read finds.
proof fn lemma_search_block_any(data: Seq<u8>, n: int, wanted: spec_fn(EntryView) -> bool)
    requires
        n >= 0,
        block_entries(data, n) is Ok,
    ensures
        match search_block(data, n, wanted) {
            Ok(Some(j)) => first_wanted(block_entries(data, n)->Ok_0, j, wanted),
            Ok(None) => forall|j: int|
                0 <= j < n ==> !wanted(#[trigger] block_entries(data, n)->Ok_0[j]),
            Err(_) => false,
        },
    decreases n,
{
    if n > 0 {
        lemma_search_block_any(data, n - 1, wanted);
        lemma_block_entries(data, n);
        lemma_block_entries(data, n - 1);
        let es = block_entries(data, n)->Ok_0;
        let head = block_entries(data, n - 1)->Ok_0;
        assert forall|j: int| 0 <= j < n - 1 implies #[trigger] es[j] == head[j] by {}
        if let Ok(None) = search_block(data, n - 1, wanted) {
            assert forall|j: int| 0 <= j < n - 1 implies !wanted(#[trigger] es[j]) by {
                assert(es[j] == head[j]);
            }
        }
    }
}

impl ImageView {
    /// What a search of a directory that can be read finds.
    proof fn lemma_search_any(self, node: InodeView, n: int, wanted: spec_fn(EntryView) -> bool)
        requires
            n >= 0,
            self.scan(node, n) is Ok,
        ensures
            ({
                let es = self.scan(node, n)->Ok_0;
                &&& es.len() == n * self.slots()
                &&& match self.search(node, n, wanted) {
                    Ok(Some((b, j))) => exists|k: int|
                        {
                            &&& 0 <= k < n
                            &&& #[trigger] self.pointer(node, k) == b
                            &&& 0 <= j < self.slots()
                            &&& first_wanted(es, k * self.slots() + j, wanted)
                        },
                    Ok(None) => forall|p: int| 0 <= p < es.len() ==> !wanted(#[trigger] es[p]),
                    Err(_) => false,
                }
            }),
        decreases n,
    {
        if n > 0 {
            let slots = self.slots();
            self.lemma_search_any(node, n - 1, wanted);
            let head = self.scan(node, n - 1)->Ok_0;
            let es = self.scan(node, n)->Ok_0;
            let b = self.pointer(node, n - 1);
            let data = self.blocks[b as int];
            let tail = block_entries(data, slots)->Ok_0;
            lemma_block_entries(data, slots);
            lemma_search_block_any(data, slots, wanted);
            assert(n * slots == (n - 1) * slots + slots) by (nonlinear_arith);
            assert(es =~= head + tail);
            match self.search(node, n - 1, wanted) {
                Ok(Some((b2, j))) => {
                    let k = choose|k: int|
                        {
                            &&& 0 <= k < n - 1
                            &&& #[trigger] self.pointer(node, k) == b2
                            &&& 0 <= j < slots
                            &&& first_wanted(head, k * slots + j, wanted)
                        };
                    assert(first_wanted(es, k * slots + j, wanted));
                    assert(self.pointer(node, k) == b2);
                },
                Ok(None) => {
                    assert forall|p: int| 0 <= p < head.len() implies !wanted(#[trigger] es[p]) by {
                        assert(es[p] == head[p]);
                    }
                    if let Ok(Some(j)) = search_block(data, slots, wanted) {
                        let at = (n - 1) * slots + j;
                        assert(es[at] == tail[j]);
                        assert forall|q: int| 0 <= q < at implies !wanted(#[trigger] es[q]) by {
                            if q >= head.len() {
                                assert(es[q] == tail[q - head.len()]);
                            }
                        }
                        assert(first_wanted(es, at, wanted));
                    } else {
                        assert forall|p: int| 0 <= p < es.len() implies !wanted(#[trigger] es[p]) by {
                            if p >= head.len() {
                                assert(es[p] == tail[p - head.len()]);
                            }
                        }
                    }
                },
                Err(_) => {},
            }
        } else {
            assert(0 * self.slots() == 0) by (nonlinear_arith);
        }
    }

    /// The entry at position `p` of the directory `node` is the first that is
    /// wanted, and `after` has `e` in its place.
    pub open spec fn replaced(
        self,
        node: InodeView,
        wanted: spec_fn(EntryView) -> bool,
        e: EntryView,
        blocks: Seq<Seq<u8>>,
        k: int,
        j: int,
    ) -> bool {
        let slots = self.bs() / 68;
        let b = self.pointer(node, k) as int;
        &&& 0 <= k
        &&& 0 <= j < slots
        &&& self.entries(node) is Ok
        &&& first_wanted(self.entries(node)->Ok_0, k * slots + j, wanted)
        &&& blocks == self.blocks.update(b, splice(self.blocks[b], 68 * j, entry_bytes(e)))
    }
}

/// What a removal does in any image. Where the parent lists the name, a file, or
/// a directory that lists nothing, is removed: the first entry of the parent in
/// use under the name is overwritten by an unused one, and the inode is given
/// back. Nothing else changes.
pub proof fn law_remove_anywhere(img: ImageView, path: Seq<char>, d: u32, x: u32)
    requires
        split(path) matches Ok(all) && all.len() > 0 && img.resolve(all.drop_last()) == Ok::<
            u32,
            ErrorView,
        >(d),
        img.lookup(path) == Ok::<u32, ErrorView>(x),
        img.bs() > 0,
    ensures
        ({
            let name = split(path)->Ok_0.last();
            let node = img.inodes[d as int];
            let (after, r) = img.unlink(path);
            img.inodes[x as int].kind == FileKind::File ==> {
                &&& r == Ok::<(), ErrorView>(())
                &&& exists|k: int, j: int|
                    #[trigger] img.replaced(node, named(name), empty_entry(), after.blocks, k, j)
                &&& after == (ImageView { blocks: after.blocks, ..img }).free_inode(x)
            }
        }),
        ({
            let name = split(path)->Ok_0.last();
            let node = img.inodes[d as int];
            let (after, r) = img.rmdir(path);
            img.inodes[x as int].kind == FileKind::Directory && img.list(x) == Ok::<
                Seq<ItemView>,
                ErrorView,
            >(Seq::empty()) ==> {
                &&& r == Ok::<(), ErrorView>(())
                &&& exists|k: int, j: int|
                    #[trigger] img.replaced(node, named(name), empty_entry(), after.blocks, k, j)
                &&& after == (ImageView { blocks: after.blocks, ..img }).free_inode(x)
            }
        }),
{
    let all = split(path)->Ok_0;
    let name = all.last();
    let node = img.inodes[d as int];
    let n = img.covered(node);
    let slots = img.slots();
    img.lemma_covered_nonnegative(node);
    img.lemma_search_any(node, n, named(name));
    let es = img.entries(node)->Ok_0;
    lemma_first_named(es, name, 0);
    match img.search(node, n, named(name)) {
        Ok(Some((b, j))) => {
            let k = choose|k: int|
                {
                    &&& 0 <= k < n
                    &&& #[trigger] img.pointer(node, k) == b
                    &&& 0 <= j < slots
                    &&& first_wanted(es, k * slots + j, named(name))
                };
            let (mid, r) = img.remove_entry(d as int, name);
            let after = mid.free_inode(x);
            assert(after.blocks == mid.blocks);
            assert(mid =~= (ImageView { blocks: after.blocks, ..img }));
            assert(img.replaced(node, named(name), empty_entry(), after.blocks, k, j));
        },
        Ok(None) => {
            let p = crate::model::dir::position_from(es, name, 0);
            assert(is_named(es[p], name));
            assert(named(name)(es[p]));
        },
        Err(_) => {},
    }
}

/// When an entry can be made in any image, the parent being a directory in use
/// that can be read and does not list the name. An inode must be free. Where the
/// parent has an unused entry, the first of them is overwritten by the new one,
/// the inode is claimed, and nothing else changes. Else the parent grows, if it
/// has not got all its blocks, and if there are blocks free.
pub proof fn law_make_anywhere(img: ImageView, path: Seq<char>, d: u32, kind: FileKind)
    requires
        img.shaped(),
        img.bs() > 0,
        d < img.inodes.len(),
        img.inodes[d as int].allocated,
        img.inodes[d as int].kind == FileKind::Directory,
        split(path) matches Ok(all) && all.len() > 0 && encode_utf8(all.last()).len() <= 60
            && img.resolve(all.drop_last()) == Ok::<u32, ErrorView>(d),
        img.list(d) matches Ok(items) && !lists(items, split(path)->Ok_0.last()),
    ensures
        ({
            let name = split(path)->Ok_0.last();
            let node = img.inodes[d as int];
            let es = img.entries(node)->Ok_0;
            let n = (node.size + img.bs() - 1) / img.bs();
            let (mid, claimed) = img.claim_inode(kind);
            let at_root = ErrorView::InvalidPath(path);
            let (after, r) = img.make(path, kind, at_root);
            let full = forall|i: int|
                0 <= i < img.inodes.len() ==> (#[trigger] img.inodes[i]).allocated;
            let some_unused = exists|p: int| 0 <= p < es.len() && !(#[trigger] es[p]).used;
            &&& full ==> (after, r) == (img, Err::<u32, ErrorView>(ErrorView::OutOfInodes))
            &&& !full && some_unused ==> {
                &&& r == claimed
                &&& r is Ok
                &&& exists|k: int, j: int| #[trigger]
                    img.replaced(
                        node,
                        unused(),
                        used_entry(name, claimed->Ok_0),
                        after.blocks,
                        k,
                        j,
                    )
                &&& after == (ImageView { blocks: after.blocks, ..mid })
            }
            &&& !full && !some_unused && n >= 12 + img.bs() / 4 ==> r == Err::<u32, ErrorView>(
                ErrorView::FileTooLarge,
            )
            &&& !full && n < 12 + img.bs() / 4 && img.bs() < 68 ==> (after, r) == (
                img,
                Err::<u32, ErrorView>(ErrorView::OutOfSpace),
            )
            &&& !full && !some_unused && n < 12 + img.bs() / 4 && img.bs() >= 68 ==> {
                let cost: nat = if img.pointer(node, n) != NULL_BLOCK {
                    0
                } else if n >= 12 && node.indirect == NULL_BLOCK {
                    2
                } else {
                    1
                };
                &&& img.free_blocks() >= cost ==> r == claimed && r is Ok && after.free_blocks()
                    == img.free_blocks() - cost && (node.size + img.bs() <= u64::MAX
                    ==> after.inodes[d as int].size == node.size + img.bs())
                &&& img.free_blocks() < cost ==> r == Err::<u32, ErrorView>(ErrorView::OutOfSpace)
            }
        }),
        img.create(path).0 == img.make(path, FileKind::File, ErrorView::InvalidPath(path)).0,
        img.create(path).1 matches Err(e) ==> img.make(
            path,
            FileKind::File,
            ErrorView::InvalidPath(path),
        ).1 == Err::<u32, ErrorView>(e),
        img.create(path).1 is Ok <==> img.make(
            path,
            FileKind::File,
            ErrorView::InvalidPath(path),
        ).1 is Ok,
        img.mkdir(path).0 == img.make(path, FileKind::Directory, ErrorView::InvalidPath(path)).0,
        img.mkdir(path).1 matches Err(e) ==> img.make(
            path,
            FileKind::Directory,
            ErrorView::InvalidPath(path),
        ).1 == Err::<u32, ErrorView>(e),
        img.mkdir(path).1 is Ok <==> img.make(
            path,
            FileKind::Directory,
            ErrorView::InvalidPath(path),
        ).1 is Ok,
{
    let all = split(path)->Ok_0;
    let name = all.last();
    let node = img.inodes[d as int];
    let n = img.covered(node);
    let slots = img.slots();
    let es = img.entries(node)->Ok_0;
    let (mid, claimed) = img.claim_inode(kind);
    img.lemma_vacant(kind);
    img.lemma_covered_nonnegative(node);
    img.lemma_listing_first(es, name);
    assert(img.vacancy(all.drop_last(), name, path) == Ok::<u32, ErrorView>(d));
    assert forall|i: int| 0 <= i < img.inodes.len() && #[trigger] img.in_use()[i] implies (
    img.inodes[i]).allocated by {}
    if claimed is Ok {
        assert(!img.inodes[img.vacant(kind)].allocated);
        assert(mid.inodes[d as int] == node);
        mid.lemma_same_blocks_scan(img, node, n);
        mid.lemma_search_any(node, n, unused());
        let e = used_entry(name, claimed->Ok_0);
        if slots > 0 {
            match mid.search(node, n, unused()) {
                Ok(Some((b, j))) => {
                    let k = choose|k: int|
                        {
                            &&& 0 <= k < n
                            &&& #[trigger] mid.pointer(node, k) == b
                            &&& 0 <= j < slots
                            &&& first_wanted(es, k * slots + j, unused())
                        };
                    assert(img.pointer(node, k) == b);
                    let after = mid.put_entry(b as int, j, e);
                    assert(img.replaced(node, unused(), e, after.blocks, k, j));
                    assert(!es[k * slots + j].used);
                },
                Ok(None) => {
                    assert forall|p: int| 0 <= p < es.len() implies (#[trigger] es[p]).used by {
                        assert(!unused()(es[p]));
                    }
                    mid.lemma_alloc_space();
                    lemma_first_clear(mid.bitmap, 0);
                    if n >= 12 && node.indirect == NULL_BLOCK {
                        let (mid2, r2) = mid.alloc_indirect(d as int);
                        if r2 is Ok {
                            mid2.lemma_alloc_space();
                            lemma_first_clear(mid2.bitmap, 0);
                        }
                    }
                },
                Err(_) => {},
            }
        } else {
            assert(n * slots == 0) by (nonlinear_arith)
                requires
                    slots == 0,
            ;
        }
    }
}

impl ImageView {
    /// The entries of a directory depend on the blocks alone.
    proof fn lemma_same_blocks_scan(self, img: ImageView, node: InodeView, n: int)
        requires
            self.blocks == img.blocks,
            self.sb == img.sb,
        ensures
            self.scan(node, n) == img.scan(node, n),
        decreases n,
    {
        if n > 0 {
            self.lemma_same_blocks_scan(img, node, n - 1);
        }
    }
}

/// Where every pointer leads to a block of the image and every entry in use of
/// every directory to an inode of the table, all operations stay inside the
/// image, whatever the path, and so does the consistency check.
pub proof fn law_inside(img: ImageView, path: Seq<char>)
    requires
        img.shaped(),
        img.bs() > 0,
        forall|i: int|
            0 <= i < 256 ==> {
                let node = #[trigger] img.inodes[i];
                &&& node.id < 256
                &&& node.indirect == 0xffff_ffff || node.indirect < img.sb.num_blocks
            },
        forall|i: int, k: int|
            0 <= i < 256 && 0 <= k < 12 + img.bs() / 4 ==> {
                ||| #[trigger] img.pointer(img.inodes[i], k) == 0xffff_ffff
                ||| img.pointer(img.inodes[i], k) < img.sb.num_blocks
            },
        forall|i: int, k: int, j: int|
            0 <= i < 256 && img.inodes[i].kind == FileKind::Directory && 0 <= k && k * img.bs()
                < img.inodes[i].size && img.pointer(img.inodes[i], k) != 0xffff_ffff && 0 <= j
                < img.bs() / 68 ==> (decode_entry(
                #[trigger] place_bytes(img, img.inodes[i], k, j),
            ) matches Ok(e) ==> e.used ==> e.inode < 256),
    ensures
        img.in_range(),
        img.can_stat(path),
        img.can_read(path),
        img.can_readdir(path),
        img.can_make(path, FileKind::File),
        img.can_make(path, FileKind::Directory),
        img.can_write(path),
        img.can_unlink(path),
        img.can_rmdir(path),
        img.can_check(),
{
    assert forall|i: int| 0 <= i < img.inodes.len() implies {
        &&& (#[trigger] img.inodes[i]).id < INODE_COUNT
        &&& img.node_in_range(img.inodes[i])
        &&& img.inodes[i].kind == FileKind::Directory ==> img.dir_in_range(img.inodes[i])
    } by {
        let node = img.inodes[i];
        if node.kind == FileKind::Directory {
            assert forall|k: int, j: int|
                #![trigger img.pointer(node, k), slot(img.blocks[img.pointer(node, k) as int], j)]
                0 <= k < img.covered(node) && 0 <= j < img.slots() && img.pointer(node, k)
                    != NULL_BLOCK implies {
                decode_entry(slot(img.blocks[img.pointer(node, k) as int], j)) matches Ok(e)
                    ==> e.used ==> e.inode < INODE_COUNT
            } by {
                lemma_ceil_div(node.size as int, img.bs(), k);
                assert(slot(img.blocks[img.pointer(node, k) as int], j) == place_bytes(
                    img,
                    node,
                    k,
                    j,
                ));
            }
        }
    }
    img.lemma_can_check();
}

/// Every pointer of `node` leads to a block of the image.
pub open spec fn node_inside(img: ImageView, node: InodeView) -> bool {
    &&& node.indirect == 0xffff_ffff || node.indirect < img.sb.num_blocks
    &&& forall|k: int|
        0 <= k < 12 + img.bs() / 4 ==> {
            ||| #[trigger] img.pointer(node, k) == 0xffff_ffff
            ||| img.pointer(node, k) < img.sb.num_blocks
        }
}

/// The names along `all` lead to inodes of the table whose pointers stay inside.
pub open spec fn way_inside(img: ImageView, all: Seq<Seq<char>>) -> bool {
    forall|n: int|
        0 <= n <= all.len() ==> (img.resolve(#[trigger] all.take(n)) matches Ok(x) ==> x < 256
            && node_inside(img, img.inodes[x as int]))
}

impl ImageView {
    proof fn lemma_way(self, all: Seq<Seq<char>>)
        requires
            self.shaped(),
            self.bs() > 0,
            way_inside(self, all),
        ensures
            self.resolve_readable(all),
            self.resolve(all) matches Ok(x) ==> x < 256 && self.node_in_range(
                self.inodes[x as int],
            ),
        decreases all.len(),
    {
        assert(all.take(all.len() as int) =~= all);
        if all.len() > 0 {
            let head = all.drop_last();
            assert forall|n: int| 0 <= n <= head.len() implies (self.resolve(
                #[trigger] head.take(n),
            ) matches Ok(x) ==> x < 256 && node_inside(self, self.inodes[x as int])) by {
                assert(head.take(n) =~= all.take(n));
            }
            self.lemma_way(head);
            if let Ok(dir) = self.resolve(head) {
                self.lemma_node_readable(self.inodes[dir as int]);
            }
        }
    }
}

/// Looking at a path, and changing what it leads to, stays inside the image
/// where the inodes on its way are inodes of the table and their pointers lead
/// to blocks of the image, whatever the other inodes hold.
pub proof fn law_way_inside(img: ImageView, path: Seq<char>)
    requires
        img.shaped(),
        img.bs() > 0,
        split(path) matches Ok(all) && way_inside(img, all),
    ensures
        img.can_stat(path),
        img.can_read(path),
        img.can_write(path),
        img.lookup(path) is Ok ==> img.can_store(path),
        img.can_unlink(path),
        (forall|x: u32, i: int|
            img.lookup(path) == Ok::<u32, ErrorView>(x) && img.list(x) is Ok && 0 <= i < img.list(
                x,
            )->Ok_0.len() ==> (#[trigger] img.list(x)->Ok_0[i]).inode < 256) ==> {
            &&& img.can_readdir(path)
            &&& img.can_rmdir(path)
        },
{
    let all = split(path)->Ok_0;
    img.lemma_way(all);
    if let Ok(x) = img.resolve(all) {
        let node = img.inodes[x as int];
        img.lemma_node_readable(node);
        if forall|y: u32, i: int|
            img.lookup(path) == Ok::<u32, ErrorView>(y) && img.list(y) is Ok && 0 <= i < img.list(
                y,
            )->Ok_0.len() ==> (#[trigger] img.list(y)->Ok_0[i]).inode < 256 {
            if let Ok(es) = img.entries(node) {
                assert forall|i: int| 0 <= i < es.len() && (
                #[trigger] es[i]).used implies es[i].inode < img.inodes.len() by {
                    let item = img.item(es[i]);
                    img.lemma_listing_items(es, item);
                    let items = img.list(x)->Ok_0;
                    assert(items.contains(item));
                    let p = items.index_of(item);
                    assert(img.list(x)->Ok_0[p].inode < 256);
                }
            }
            assert(img.list_readable(x));
        }
    }
    if all.len() > 0 {
        let parts = all.drop_last();
        assert forall|n: int| 0 <= n <= parts.len() implies (img.resolve(
            #[trigger] parts.take(n),
        ) matches Ok(x) ==> x < 256 && node_inside(img, img.inodes[x as int])) by {
            assert(parts.take(n) =~= all.take(n));
        }
        img.lemma_way(parts);
        if let Ok(dir) = img.resolve(parts) {
            img.lemma_node_readable(img.inodes[dir as int]);
            if let Ok((_, id)) = img.occupant(parts, all.last(), path) {
                assert(img.resolve(all) == Ok::<u32, ErrorView>(id));
            }
        }
    }
}

/// Making an entry stays inside the image where the inodes on the way to the
/// parent are inodes of the table and their pointers lead to blocks of the
/// image, whatever the other inodes hold.
pub proof fn law_make_inside(img: ImageView, path: Seq<char>, kind: FileKind)
    requires
        img.shaped(),
        img.bs() > 0,
        split(path) matches Ok(all) && (all.len() > 0 ==> way_inside(img, all.drop_last())),
        forall|i: int| 0 <= i < 256 ==> (#[trigger] img.inodes[i]).id < 256,
    ensures
        img.can_make(path, kind),
{
    let all = split(path)->Ok_0;
    if all.len() > 0 {
        img.lemma_way(all.drop_last());
        if let Ok(d) = img.resolve(all.drop_last()) {
            let dir = d as int;
            img.lemma_node_readable(img.inodes[dir]);
            let i = img.vacant(kind);
            img.lemma_vacant(kind);
            if i < img.inodes.len() {
                let mid = img.claim_inode(kind).0;
                let node = mid.inodes[dir];
                assert(mid.shaped());
                assert(mid.node_in_range(node)) by {
                    assert forall|k: int| 0 <= k < DIRECT_POINTERS + mid.words() implies {
                        ||| #[trigger] mid.pointer(node, k) == NULL_BLOCK
                        ||| mid.pointer(node, k) < mid.blocks.len()
                    } by {
                        assert(mid.pointer(node, k) == img.pointer(node, k));
                        if dir != i {
                            assert(node == img.inodes[dir]);
                        }
                    }
                }
                mid.lemma_node_readable(node);
                mid.lemma_covered_nonnegative(node);
            }
        }
    }
}

} // verus!
