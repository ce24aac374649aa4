//! Places: where the entries of a directory stand, in which order they are
//! listed, and which place a new one takes.

use vstd::prelude::*;
use vstd::utf8::encode_utf8;
use crate::error::ErrorView;
use crate::inode::{FileKind, InodeView, NULL_BLOCK};
use crate::laws::make::{law_create_found, law_mkdir_found};
use crate::model::dir::{
    block_entries, first_entry_block, lemma_block_entries_err, search_block, slot, unused,
};
use crate::model::entry::{
    decode_entry, entry_bytes, fits_slot, law_entry_roundtrip, used_entry, EntryView,
};
use crate::model::image::{lemma_first_clear, zeros, ImageView};
use crate::model::sound::lemma_block_entries_ok;
use crate::model::tree::ItemView;
use crate::path::{proper_name, split};

verus! {

/// The test for entries in use.
pub open spec fn entry_used() -> spec_fn(EntryView) -> bool {
    |e: EntryView| e.used
}

/// What is listed of an entry: its name, its inode, and the kind of that.
pub open spec fn shown(img: ImageView) -> spec_fn(EntryView) -> ItemView {
    |e: EntryView|
        ItemView { name: e.name, inode: e.inode, kind: img.inodes[e.inode as int].kind }
}

/// The bytes of entry `j` in the `k`-th data block of `node`: 68 for each entry.
pub open spec fn place_bytes(img: ImageView, node: InodeView, k: int, j: int) -> Seq<u8> {
    img.blocks[img.pointer(node, k) as int].subrange(68 * j, 68 * j + 68)
}

/// The place `(k, j)` comes before the place `(k2, j2)`.
pub open spec fn comes_before(k: int, j: int, k2: int, j2: int) -> bool {
    k < k2 || (k == k2 && j < j2)
}

/// A directory that can be read lists its entries in use, in their order, with
/// their names and inodes and the kinds of those.
pub proof fn law_listing_order(img: ImageView, es: Seq<EntryView>)
    ensures
        img.listing(es) == es.filter(entry_used()).map_values(shown(img)),
    decreases es.len(),
{
    reveal(Seq::filter);
    let all = es.filter(entry_used()).map_values(shown(img));
    if es.len() > 0 {
        let head = es.drop_last();
        law_listing_order(img, head);
        let before = head.filter(entry_used());
        if es.last().used {
            assert(all =~= before.map_values(shown(img)).push(shown(img)(es.last())));
        }
    }
    assert(img.listing(es) =~= all);
}

/// A directory is listed by its entries in use, and cannot be listed if its
/// entries cannot be read, for the same reason.
pub proof fn law_list(img: ImageView, id: u32)
    ensures
        match img.entries(img.inodes[id as int]) {
            Ok(es) => img.list(id) == Ok::<Seq<ItemView>, ErrorView>(
                es.filter(entry_used()).map_values(shown(img)),
            ),
            Err(e) => img.list(id) == Err::<Seq<ItemView>, ErrorView>(e),
        },
{
    if let Ok(es) = img.entries(img.inodes[id as int]) {
        law_listing_order(img, es);
    }
}

/// The entries of a directory are those in the blocks that its size covers, block
/// by block, as many as fit a block. They can be read if no block is missing and
/// each of them can be read.
pub proof fn law_entries(img: ImageView, d: int)
    requires
        img.bs() > 0,
        0 <= d < img.inodes.len(),
    ensures
        ({
            let node = img.inodes[d];
            let n = (node.size + img.bs() - 1) / img.bs();
            let slots = img.bs() / 68;
            &&& img.entries(node) is Ok <==> {
                &&& forall|k: int| 0 <= k < n ==> #[trigger] img.pointer(node, k) != NULL_BLOCK
                &&& forall|k: int, j: int|
                    0 <= k < n && 0 <= j < slots ==> decode_entry(
                        #[trigger] place_bytes(img, node, k, j),
                    ) is Ok
            }
            &&& img.entries(node) matches Ok(es) ==> {
                &&& es.len() == n * slots
                &&& forall|k: int, j: int|
                    0 <= k < n && 0 <= j < slots ==> decode_entry(
                        #[trigger] place_bytes(img, node, k, j),
                    ) == Ok::<EntryView, ErrorView>(es[k * slots + j])
            }
        }),
{
    let node = img.inodes[d];
    let n = (node.size + img.bs() - 1) / img.bs();
    let slots = img.bs() / 68;
    img.lemma_covered_nonnegative(node);
    assert(n == img.covered(node));
    if img.entries(node) is Ok {
        img.lemma_scan_places(d, n);
        img.lemma_scan_present(node, n);
        let es = img.entries(node)->Ok_0;
        assert forall|k: int, j: int| 0 <= k < n && 0 <= j < slots implies decode_entry(
            #[trigger] place_bytes(img, node, k, j),
        ) == Ok::<EntryView, ErrorView>(es[k * slots + j]) by {
            assert(img.entry_at(d, k, j) == decode_entry(place_bytes(img, node, k, j)));
        }
    } else if (forall|k: int| 0 <= k < n ==> #[trigger] img.pointer(node, k) != NULL_BLOCK) && (
    forall|k: int, j: int|
        0 <= k < n && 0 <= j < slots ==> decode_entry(#[trigger] place_bytes(img, node, k, j)) is Ok) {
        assert forall|k: int, j: int| 0 <= k < n && 0 <= j < slots implies #[trigger] img.entry_at(
            d,
            k,
            j,
        ) is Ok by {
            assert(decode_entry(place_bytes(img, node, k, j)) is Ok);
        }
        img.lemma_scan_ok(d, n);
    }
}

/// Why a directory cannot be read: the first block that is missing, or the first
/// entry that cannot be read, tells it.
pub proof fn law_unreadable(img: ImageView, d: int, k: int, j: int)
    requires
        img.bs() > 0,
        0 <= d < img.inodes.len(),
        0 <= k < (img.inodes[d].size + img.bs() - 1) / img.bs(),
        0 <= j,
        forall|k2: int|
            0 <= k2 < k ==> #[trigger] img.pointer(img.inodes[d], k2) != NULL_BLOCK,
        forall|k2: int, j2: int|
            0 <= k2 && 0 <= j2 < img.bs() / 68 && comes_before(k2, j2, k, j) ==> decode_entry(
                #[trigger] place_bytes(img, img.inodes[d], k2, j2),
            ) is Ok,
    ensures
        ({
            let node = img.inodes[d];
            let found = decode_entry(place_bytes(img, node, k, j));
            &&& img.pointer(node, k) == NULL_BLOCK && j == 0 ==> img.entries(node) == Err::<
                Seq<EntryView>,
                ErrorView,
            >(ErrorView::Corrupt("missing directory block"@))
            &&& img.pointer(node, k) != NULL_BLOCK && j < img.bs() / 68 && found is Err
                ==> img.entries(node) == Err::<Seq<EntryView>, ErrorView>(found->Err_0)
        }),
{
    let node = img.inodes[d];
    let n = img.covered(node);
    assert forall|k2: int, j2: int|
        0 <= k2 < k && 0 <= j2 < img.slots() implies #[trigger] img.entry_at(d, k2, j2) is Ok by {
        assert(comes_before(k2, j2, k, j));
        assert(decode_entry(place_bytes(img, node, k2, j2)) is Ok);
    }
    img.lemma_scan_ok(d, k);
    if img.pointer(node, k) == NULL_BLOCK {
        img.lemma_scan_err(node, k + 1, n);
    } else if j < img.bs() / 68 && decode_entry(place_bytes(img, node, k, j)) is Err {
        let data = img.blocks[img.pointer(node, k) as int];
        assert forall|j2: int| 0 <= j2 < j implies #[trigger] decode_entry(slot(data, j2)) is Ok by {
            assert(comes_before(k, j2, k, j));
            assert(decode_entry(place_bytes(img, node, k, j2)) is Ok);
        }
        lemma_block_entries_ok(data, j);
        assert(block_entries(data, j + 1) is Err);
        lemma_block_entries_err(data, j + 1, img.slots());
        img.lemma_scan_err(node, k + 1, n);
    }
}

/// A search of a block finds the first entry that is wanted.
proof fn lemma_search_block_first(data: Seq<u8>, n: int, wanted: spec_fn(EntryView) -> bool)
    ensures
        match search_block(data, n, wanted) {
            Ok(Some(j)) => forall|j2: int|
                0 <= j2 < j ==> (#[trigger] decode_entry(slot(data, j2)) matches Ok(e) && !wanted(
                    e,
                )),
            Ok(None) => forall|j2: int|
                0 <= j2 < n ==> (#[trigger] decode_entry(slot(data, j2)) matches Ok(e) && !wanted(
                    e,
                )),
            Err(_) => true,
        },
    decreases n,
{
    if n > 0 {
        lemma_search_block_first(data, n - 1, wanted);
    }
}

impl ImageView {
    /// A directory that was read has the blocks that were read.
    proof fn lemma_scan_present(self, node: InodeView, n: int)
        requires
            self.scan(node, n) is Ok,
        ensures
            forall|k: int| 0 <= k < n ==> #[trigger] self.pointer(node, k) != NULL_BLOCK,
        decreases n,
    {
        if n > 0 {
            self.lemma_scan_present(node, n - 1);
        }
    }

    /// The place of the first entry that is wanted.
    pub open spec fn first_place(
        self,
        d: int,
        k: int,
        j: int,
        wanted: spec_fn(EntryView) -> bool,
    ) -> bool {
        forall|k2: int, j2: int|
            0 <= k2 && 0 <= j2 < self.slots() && comes_before(k2, j2, k, j) ==> (
            #[trigger] self.entry_at(d, k2, j2) matches Ok(e) && !wanted(e))
    }

    /// A search finds the first entry that is wanted.
    proof fn lemma_search_first(
        self,
        d: int,
        n: int,
        wanted: spec_fn(EntryView) -> bool,
    )
        requires
            self.sound(),
            self.is_dir(d),
            0 <= n <= self.covered(self.inodes[d]),
        ensures
            match self.search(self.inodes[d], n, wanted) {
                Ok(Some((b, j))) => exists|k: int|
                    {
                        &&& 0 <= k < n
                        &&& self.pointer(self.inodes[d], k) == b
                        &&& 0 <= j < self.slots()
                        &&& (#[trigger] self.entry_at(d, k, j) matches Ok(e) && wanted(e))
                        &&& self.first_place(d, k, j, wanted)
                    },
                Ok(None) => self.first_place(d, n, 0, wanted),
                Err(_) => true,
            },
        decreases n,
    {
        let node = self.inodes[d];
        if n > 0 {
            self.lemma_search_first(d, n - 1, wanted);
            assert(self.node_sound(d));
            assert(self.pointer(node, n - 1) != NULL_BLOCK);
            let b = self.pointer(node, n - 1);
            let data = self.blocks[b as int];
            lemma_search_block_first(data, self.slots(), wanted);
            self.lemma_search(d, n, wanted);
            match self.search(node, n - 1, wanted) {
                Ok(None) => match search_block(data, self.slots(), wanted) {
                    Ok(Some(j)) => {
                        lemma_search_block_found(data, self.slots(), wanted);
                        assert(self.entry_at(d, n - 1, j) == decode_entry(slot(data, j)));
                        assert forall|k2: int, j2: int|
                            0 <= k2 && 0 <= j2 < self.slots() && comes_before(
                                k2,
                                j2,
                                n - 1,
                                j,
                            ) implies (#[trigger] self.entry_at(d, k2, j2) matches Ok(e)
                            && !wanted(e)) by {
                            if k2 == n - 1 {
                                assert(self.entry_at(d, k2, j2) == decode_entry(slot(data, j2)));
                            } else {
                                assert(comes_before(k2, j2, n - 1, 0));
                            }
                        }
                        assert(self.first_place(d, n - 1, j, wanted));
                    },
                    Ok(None) => {
                        assert forall|k2: int, j2: int|
                            0 <= k2 && 0 <= j2 < self.slots() && comes_before(
                                k2,
                                j2,
                                n,
                                0,
                            ) implies (#[trigger] self.entry_at(d, k2, j2) matches Ok(e)
                            && !wanted(e)) by {
                            if k2 == n - 1 {
                                assert(self.entry_at(d, k2, j2) == decode_entry(slot(data, j2)));
                            } else {
                                assert(comes_before(k2, j2, n - 1, 0));
                            }
                        }
                    },
                    Err(_) => {},
                },
                Ok(Some((b2, j))) => {
                    let k = choose|k: int|
                        {
                            &&& 0 <= k < n - 1
                            &&& self.pointer(node, k) == b2
                            &&& 0 <= j < self.slots()
                            &&& (#[trigger] self.entry_at(d, k, j) matches Ok(e) && wanted(e))
                            &&& self.first_place(d, k, j, wanted)
                        };
                    assert(self.entry_at(d, k, j) is Ok);
                    assert(self.first_place(d, k, j, wanted));
                },
                Err(_) => {},
            }
        }
    }

    /// A new entry stands behind entries that are all in use.
    proof fn lemma_add_place(self, d: int, name: Seq<char>, target: u32, k: int, j: int)
        requires
            self.sound(),
            self.slots() > 0,
            self.is_dir(d),
            self.entries(self.inodes[d]) is Ok,
            fits_slot(used_entry(name, target)),
            self.add_entry(d, name, target).1 is Ok,
            self.add_entry(d, name, target).0.links(d, k, j),
            !self.links(d, k, j),
        ensures
            self.first_place(d, k, j, unused()),
            self.add_entry(d, name, target).0.entry_at(d, k, j) == Ok::<EntryView, ErrorView>(
                used_entry(name, target),
            ),
    {
        let node = self.inodes[d];
        let n = self.covered(node);
        let e = used_entry(name, target);
        let img = self.add_entry(d, name, target).0;
        self.lemma_covered_nonnegative(node);
        self.lemma_search_first(d, n, unused());
        law_entry_roundtrip(e);
        assert(img.is_slot(d, k, j));
        match self.search(node, n, unused()) {
            Ok(Some((b, j0))) => {
                let k0 = choose|k: int|
                    {
                        &&& 0 <= k < n
                        &&& self.pointer(self.inodes[d], k) == b
                        &&& 0 <= j0 < self.slots()
                        &&& (#[trigger] self.entry_at(d, k, j0) matches Ok(x) && unused()(x))
                        &&& self.first_place(d, k, j0, unused())
                    };
                assert(self.is_slot(d, k0, j0));
                self.lemma_put(d, k0, j0, e);
            },
            Ok(None) => {
                self.lemma_grow(d, e);
            },
            Err(_) => {},
        }
    }
}

/// What a search of a block finds stands in it and is wanted.
proof fn lemma_search_block_found(data: Seq<u8>, n: int, wanted: spec_fn(EntryView) -> bool)
    ensures
        search_block(data, n, wanted) matches Ok(Some(j)) ==> 0 <= j < n && (decode_entry(
            slot(data, j),
        ) matches Ok(e) && wanted(e)),
    decreases n,
{
    if n > 0 {
        lemma_search_block_found(data, n - 1, wanted);
    }
}

impl ImageView {
    /// A new name stands behind entries that are all in use.
    proof fn lemma_make_place(self, dir: u32, name: Seq<char>, kind: FileKind, k: int, j: int)
        requires
            self.sound(),
            self.is_dir(dir as int),
            self.find_entry(self.inodes[dir as int], name) == Ok::<Option<EntryView>, ErrorView>(
                None,
            ),
            encode_utf8(name).len() <= 60,
            proper_name(name),
            self.make_in(dir, name, kind).1 is Ok,
            self.make_in(dir, name, kind).0.links(dir as int, k, j),
            self.make_in(dir, name, kind).0.label(dir as int, k, j) == name,
        ensures
            !self.links(dir as int, k, j),
            self.first_place(dir as int, k, j, unused()),
            self.make_in(dir, name, kind).0.entry_at(dir as int, k, j) == Ok::<
                EntryView,
                ErrorView,
            >(used_entry(name, self.make_in(dir, name, kind).1->Ok_0)),
    {
        let d = dir as int;
        let (mid, r1) = self.claim_inode(kind);
        let (img, r) = self.make_in(dir, name, kind);
        let id: u32 = r->Ok_0;
        self.lemma_claim_inode(kind);
        self.lemma_find(d, name);
        self.lemma_make_in(dir, name, kind);
        if self.links(d, k, j) {
            assert(img.entry_at(d, k, j) == self.entry_at(d, k, j));
        }
        self.lemma_same_places_entries(mid, d);
        assert(self.inodes[d].allocated);
        if mid.links(d, k, j) {
            assert(mid.is_slot(d, k, j));
            assert(mid.entry_at(d, k, j) == self.entry_at(d, k, j));
            assert(self.links(d, k, j));
        }
        mid.lemma_add_place(d, name, id, k, j);
        mid.lemma_add_bound(d, name, id, k, j);
        assert forall|k2: int, j2: int|
            0 <= k2 && 0 <= j2 < self.slots() && comes_before(k2, j2, k, j) implies (
        #[trigger] self.entry_at(d, k2, j2) matches Ok(e) && !unused()(e)) by {
            assert(mid.entry_at(d, k2, j2) is Ok);
            assert(mid.is_slot(d, k2, j2));
            assert(self.is_slot(d, k2, j2));
            assert(mid.entry_at(d, k2, j2) == self.entry_at(d, k2, j2));
        }
    }

    /// A new entry stands in a block that the directory had, or first in the
    /// next one.
    proof fn lemma_add_bound(self, d: int, name: Seq<char>, target: u32, k: int, j: int)
        requires
            self.sound(),
            self.slots() > 0,
            self.is_dir(d),
            self.entries(self.inodes[d]) is Ok,
            fits_slot(used_entry(name, target)),
            self.add_entry(d, name, target).1 is Ok,
            self.add_entry(d, name, target).0.links(d, k, j),
            !self.links(d, k, j),
        ensures
            k <= self.covered(self.inodes[d]),
            k == self.covered(self.inodes[d]) ==> j == 0,
    {
        let node = self.inodes[d];
        let n = self.covered(node);
        let e = used_entry(name, target);
        let img = self.add_entry(d, name, target).0;
        self.lemma_covered_nonnegative(node);
        self.lemma_search_first(d, n, unused());
        law_entry_roundtrip(e);
        assert(img.is_slot(d, k, j));
        match self.search(node, n, unused()) {
            Ok(Some((b, j0))) => {
                let k0 = choose|k: int|
                    {
                        &&& 0 <= k < n
                        &&& self.pointer(self.inodes[d], k) == b
                        &&& 0 <= j0 < self.slots()
                        &&& (#[trigger] self.entry_at(d, k, j0) matches Ok(x) && unused()(x))
                        &&& self.first_place(d, k, j0, unused())
                    };
                assert(self.is_slot(d, k0, j0));
                self.lemma_put(d, k0, j0, e);
            },
            Ok(None) => {
                self.lemma_grow(d, e);
            },
            Err(_) => {},
        }
    }
}

/// The place that a new name takes in its directory: the first one whose entry
/// is not in use. The entry there names the new inode.
pub proof fn law_make_place(img: ImageView, path: Seq<char>, d: u32, k: int, j: int)
    requires
        img.sound(),
        split(path) matches Ok(all) && all.len() > 0 && img.resolve(all.drop_last()) == Ok::<
            u32,
            ErrorView,
        >(d),
    ensures
        ({
            let name = split(path)->Ok_0.last();
            let (made, r) = img.create(path);
            let e = made.entry_at(d as int, k, j)->Ok_0;
            r is Ok && made.links(d as int, k, j) && made.label(d as int, k, j) == name ==> {
                &&& !img.links(d as int, k, j)
                &&& forall|k2: int, j2: int|
                    img.is_slot(d as int, k2, j2) && comes_before(k2, j2, k, j) ==> #[trigger]
                    img.links(d as int, k2, j2)
                &&& e.inode == r->Ok_0.id
                &&& e.name_len == encode_utf8(name).len()
            }
        }),
        ({
            let name = split(path)->Ok_0.last();
            let (made, r) = img.mkdir(path);
            let e = made.entry_at(d as int, k, j)->Ok_0;
            r is Ok && made.links(d as int, k, j) && made.label(d as int, k, j) == name ==> {
                &&& !img.links(d as int, k, j)
                &&& forall|k2: int, j2: int|
                    img.is_slot(d as int, k2, j2) && comes_before(k2, j2, k, j) ==> #[trigger]
                    img.links(d as int, k2, j2)
                &&& made.lookup(path) == Ok::<u32, ErrorView>(e.inode)
                &&& e.name_len == encode_utf8(name).len()
            }
        }),
{
    let name = split(path)->Ok_0.last();
    let file = ErrorView::InvalidPath(path);
    let dir = ErrorView::AlreadyExists("/"@);
    img.lemma_make(path, FileKind::File, file);
    img.lemma_make(path, FileKind::Directory, dir);
    let (made, r) = img.create(path);
    if r is Ok && made.links(d as int, k, j) && made.label(d as int, k, j) == name {
        img.lemma_make_place(d, name, FileKind::File, k, j);
        law_create_found(img, path);
        img.lemma_make_in(d, name, FileKind::File);
    }
    let (made_dir, r_dir) = img.mkdir(path);
    if r_dir is Ok && made_dir.links(d as int, k, j) && made_dir.label(d as int, k, j) == name {
        img.lemma_make_place(d, name, FileKind::Directory, k, j);
        img.lemma_made(path, FileKind::Directory, dir);
        law_mkdir_found(img, path);
    }
}

impl ImageView {
    /// The block by which a directory grows holds the new entry, and zeros.
    proof fn lemma_grow_bytes(self, d: int, e: EntryView)
        requires
            self.sound(),
            self.is_dir(d),
            self.bs() >= 68,
            self.grow(d, e).1 is Ok,
            entry_bytes(e).len() == 68,
        ensures
            ({
                let img = self.grow(d, e).0;
                let node = self.inodes[d];
                let new = img.inodes[d];
                let n = self.covered(node);
                let b = img.pointer(new, n);
                &&& b != NULL_BLOCK
                &&& img.blocks[b as int] == entry_bytes(e) + zeros((self.bs() - 68) as nat)
                &&& forall|k: int|
                    0 <= k < n ==> {
                        let p = #[trigger] img.pointer(new, k);
                        p == self.pointer(node, k) && img.blocks[p as int] == self.blocks[p as int]
                    }
            }),
    {
        let node = self.inodes[d];
        let n = self.covered(node);
        self.lemma_covered_nonnegative(node);
        assert(self.node_sound(d));
        assert(self.pointer(node, n) == NULL_BLOCK);
        self.lemma_alloc_logical(d, n);
        let (mid, r) = self.alloc_logical_block(d, n);
        let b: u32 = r->Ok_0;
        lemma_first_clear(self.bitmap, 0);
        if n >= 12 && node.indirect == NULL_BLOCK {
            let mid1 = self.alloc_indirect(d).0;
            lemma_first_clear(mid1.bitmap, 0);
        } else if n >= 12 {
            assert(self.is_field(d, 12));
            assert(self.field(d, 12) == node.indirect);
        }
        assert(mid.blocks[b as int] =~= zeros(self.bs() as nat));
        let data = first_entry_block(mid.blocks[b as int], e, self.slots());
        mid.lemma_fill(d, n, data);
        let img = self.grow(d, e).0;
        let new = img.inodes[d];
        assert(data =~= entry_bytes(e) + zeros((self.bs() - 68) as nat));
        assert forall|k: int| 0 <= k <= n implies #[trigger] img.pointer(new, k) == mid.pointer(
            mid.inodes[d],
            k,
        ) by {
            let filled = mid.with_block(b as int, data);
            assert(filled.pointer(filled.inodes[d], k) == mid.pointer(mid.inodes[d], k));
            assert(img.pointer(new, k) == filled.pointer(filled.inodes[d], k));
        }
        assert forall|k: int| 0 <= k < n implies {
            let p = #[trigger] img.pointer(new, k);
            p == self.pointer(node, k) && img.blocks[p as int] == self.blocks[p as int]
        } by {
            let p = self.pointer(node, k);
            assert(p != NULL_BLOCK);
            self.lemma_pointer_bound(d, k);
            assert(mid.pointer(mid.inodes[d], k) == p);
        }
    }
}

/// The block by which a directory grows for a new name holds its entry and zeros
/// behind it. The blocks that the directory had stay as they are.
pub proof fn law_make_new_block(img: ImageView, path: Seq<char>, d: u32, kind: FileKind)
    requires
        img.sound(),
        split(path) matches Ok(all) && all.len() > 0 && img.resolve(all.drop_last()) == Ok::<
            u32,
            ErrorView,
        >(d),
        !img.has_unused(d as int),
    ensures
        ({
            let name = split(path)->Ok_0.last();
            let (after, r) = img.make(path, kind, ErrorView::InvalidPath(path));
            let node = img.inodes[d as int];
            let new = after.inodes[d as int];
            let n = img.data_blocks(node) as int;
            let b = after.pointer(new, n);
            r matches Ok(id) ==> {
                &&& b != NULL_BLOCK
                &&& after.blocks[b as int] == entry_bytes(used_entry(name, id)) + Seq::new(
                    (img.bs() - 68) as nat,
                    |p: int| 0u8,
                )
                &&& forall|k: int|
                    0 <= k < n ==> {
                        let p = #[trigger] after.pointer(new, k);
                        p == img.pointer(node, k) && after.blocks[p as int] == img.blocks[p as int]
                    }
            }
        }),
        img.create(path).0 == img.make(path, FileKind::File, ErrorView::InvalidPath(path)).0,
        img.mkdir(path).1 is Ok ==> img.mkdir(path).0 == img.make(
            path,
            FileKind::Directory,
            ErrorView::InvalidPath(path),
        ).0,
{
    let name = split(path)->Ok_0.last();
    let at_root = ErrorView::InvalidPath(path);
    let dir = d as int;
    let node = img.inodes[dir];
    img.lemma_make(path, kind, at_root);
    if let Ok(id) = img.make(path, kind, at_root).1 {
        let mid = img.claim_inode(kind).0;
        let n = img.covered(node);
        let e = used_entry(name, id);
        img.lemma_claim_inode(kind);
        img.lemma_dir_blocks(dir);
        assert(node.allocated);
        img.lemma_same_places_entries(mid, dir);
        img.lemma_covered_nonnegative(node);
        mid.lemma_search(dir, n, unused());
        mid.lemma_entries_places(dir);
        law_entry_roundtrip(e);
        match mid.search(node, n, unused()) {
            Ok(Some((b, j))) => {
                let k = choose|k: int|
                    {
                        &&& 0 <= k < n
                        &&& mid.pointer(node, k) == b
                        &&& 0 <= j < mid.slots()
                        &&& (#[trigger] mid.entry_at(dir, k, j) matches Ok(x) && unused()(x))
                    };
                assert(mid.is_slot(dir, k, j));
                assert(img.is_slot(dir, k, j));
                assert(mid.entry_at(dir, k, j) == img.entry_at(dir, k, j));
                assert(img.has_unused(dir));
            },
            Ok(None) => {
                assert(entry_bytes(e).len() == 68);
                mid.lemma_grow_bytes(dir, e);
                assert(zeros((img.bs() - 68) as nat) =~= Seq::new(
                    (img.bs() - 68) as nat,
                    |p: int| 0u8,
                ));
            },
            Err(_) => {},
        }
    }
}

} // verus!
