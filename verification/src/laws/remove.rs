//! Removing files and directories: what is gone afterwards, and what stays as
//! it was.

use vstd::prelude::*;
use crate::block::INODE_COUNT;
use crate::error::ErrorView;
use crate::inode::{empty_inode, FileKind};
use crate::laws::links::lemma_empty_entry;
use crate::model::dir::named;
use crate::model::entry::{empty_entry, EntryView};
use crate::model::image::{released, ImageView};
use crate::model::tree::ItemView;
use crate::path::{proper_name, split, split_last};

verus! {

impl ImageView {
    /// The directory `d` holds inode `id` under `name`, and `id` holds no
    /// entries.
    pub open spec fn removable(self, d: u32, name: Seq<char>, id: u32) -> bool {
        &&& self.is_dir(d as int)
        &&& (self.find_entry(self.inodes[d as int], name) matches Ok(Some(e)) && e.inode == id)
        &&& forall|k: int, j: int| !#[trigger] self.links(id as int, k, j)
    }

    /// Clearing an entry by its name clears the entry that has the name.
    proof fn lemma_remove_entry(self, d: u32, name: Seq<char>, id: u32)
        requires
            self.sound(),
            self.removable(d, name, id),
        ensures
            ({
                let (mid, r) = self.remove_entry(d as int, name);
                &&& r is Ok
                &&& mid.sound()
                &&& mid.inodes == self.inodes
                &&& mid.bitmap == self.bitmap
                &&& mid.gather(d as int) == self.gather(d as int)
                &&& self.keeps_others(mid, d as int)
                &&& self.readable() ==> mid.readable()
                &&& mid.entries(mid.inodes[d as int]) is Ok
                &&& exists|k0: int, j0: int|
                    {
                        &&& #[trigger] self.links(d as int, k0, j0)
                        &&& self.label(d as int, k0, j0) == name
                        &&& self.target(d as int, k0, j0) == id
                        &&& forall|d2: int, k: int, j: int| #[trigger]
                            mid.links(d2, k, j) <==> self.links(d2, k, j) && !(d2 == d && k == k0
                                && j == j0)
                    }
                &&& forall|d2: int, k: int, j: int| #[trigger]
                    mid.links(d2, k, j) ==> mid.entry_at(d2, k, j) == self.entry_at(d2, k, j)
            }),
    {
        let d2 = d as int;
        let node = self.inodes[d2];
        let n = self.covered(node);
        self.lemma_find(d2, name);
        self.lemma_entries_places(d2);
        self.lemma_covered_nonnegative(node);
        self.lemma_search(d2, n, named(name));
        let e = self.find_entry(node, name)->Ok_0->Some_0;
        let (k1, j1) = choose|k: int, j: int|
            {
                &&& #[trigger] self.links(d2, k, j)
                &&& self.entry_at(d2, k, j) == Ok::<EntryView, ErrorView>(e)
                &&& e.name == name
            };
        assert(self.links(d2, k1, j1));
        match self.search(node, n, named(name)) {
            Ok(Some((b, j0))) => {
                let k0 = choose|k: int|
                    {
                        &&& 0 <= k < n
                        &&& self.pointer(node, k) == b
                        &&& 0 <= j0 < self.slots()
                        &&& (#[trigger] self.entry_at(d2, k, j0) matches Ok(x) && named(name)(x))
                    };
                assert(self.links(d2, k0, j0));
                assert(k0 == k1 && j0 == j1);
                let mid = self.put_entry(b as int, j0, empty_entry());
                self.lemma_put(d2, k0, j0, empty_entry());
                self.lemma_entry_cleared(mid, d2, k0, j0);
                assert(mid.entries(mid.inodes[d2]) is Ok) by {
                    lemma_empty_entry();
                    assert(mid.node_sound(d2));
                    assert forall|k: int, j: int|
                        0 <= k < n && 0 <= j < mid.slots() implies #[trigger] mid.entry_at(
                        d2,
                        k,
                        j,
                    ) is Ok by {
                        assert(self.is_slot(d2, k, j));
                        assert(mid.is_slot(d2, k, j));
                        assert(self.entry_at(d2, k, j) is Ok);
                    }
                    mid.lemma_scan_ok(d2, n);
                }
            },
            Ok(None) => {
                assert(self.entry_at(d2, k1, j1) is Ok);
            },
            Err(_) => {
                let (k, j) = choose|k: int, j: int|
                    0 <= k < n && 0 <= j < self.slots() && #[trigger] self.entry_at(
                        d2,
                        k,
                        j,
                    ) is Err;
                assert(self.is_slot(d2, k, j));
            },
        }
    }

    /// What removing an entry and giving back its inode leaves behind.
    pub proof fn lemma_detach(self, d: u32, name: Seq<char>, id: u32)
        requires
            self.sound(),
            self.removable(d, name, id),
        ensures
            ({
                let (img, r) = self.detach(d, name, id);
                &&& r is Ok
                &&& 0 < id < INODE_COUNT
                &&& id != d
                &&& img.sound()
                &&& self.readable() ==> img.readable()
                &&& img.added(self, d as int, name, id)
                &&& img.bitmap == released(self.bitmap, self.gather(id as int))
                &&& img.inodes == self.inodes.update(id as int, empty_inode(id))
                &&& img.gather(d as int) == self.gather(d as int)
                &&& forall|i: int|
                    0 <= i < self.inodes.len() && i != id && i != d ==> #[trigger] self.keeps(
                        img,
                        i,
                    )
            }),
    {
        let (mid, r) = self.remove_entry(d as int, name);
        let img = mid.free_inode(id);
        let i0 = id as int;
        self.lemma_remove_entry(d, name, id);
        let (k0, j0) = choose|k0: int, j0: int|
            {
                &&& #[trigger] self.links(d as int, k0, j0)
                &&& self.label(d as int, k0, j0) == name
                &&& self.target(d as int, k0, j0) == id
                &&& forall|d2: int, k: int, j: int| #[trigger]
                    mid.links(d2, k, j) <==> self.links(d2, k, j) && !(d2 == d && k == k0 && j
                        == j0)
            };
        assert(self.links(d as int, k0, j0));
        assert(id != d);
        assert(self.keeps(mid, i0));
        self.lemma_keeps(mid, i0);
        mid.lemma_freed(id);
        assert forall|i: int|
            0 <= i < self.inodes.len() && i != id && i != d implies #[trigger] self.keeps(
            img,
            i,
        ) by {
            assert(self.keeps(mid, i) && mid.keeps(img, i));
            self.lemma_keeps_trans(mid, img, i);
        }
        // The directory graph after the inode was given back.
        assert forall|d2: int, k: int, j: int| {
            &&& #[trigger] img.is_slot(d2, k, j) <==> mid.is_slot(d2, k, j) && d2 != id
            &&& img.is_slot(d2, k, j) ==> img.entry_at(d2, k, j) == mid.entry_at(d2, k, j)
            &&& img.links(d2, k, j) <==> mid.links(d2, k, j)
        } by {
            if d2 != id && 0 <= d2 < mid.inodes.len() {
                assert(mid.keeps(img, d2));
                assert(mid.node_sound(d2));
                if mid.is_dir(d2) {
                    mid.lemma_keeps_places(img, d2);
                    assert(img.links(d2, k, j) <==> mid.links(d2, k, j));
                    if mid.is_slot(d2, k, j) {
                        assert(img.entry_at(d2, k, j) == mid.entry_at(d2, k, j));
                    }
                }
            } else if d2 == id {
                assert(!img.is_dir(d2));
                assert(!self.links(i0, k, j));
            }
        }
        assert forall|d2: int, k: int, j: int| #[trigger] img.links(d2, k, j) implies {
            &&& self.links(d2, k, j)
            &&& img.entry_at(d2, k, j) == self.entry_at(d2, k, j)
            &&& img.target(d2, k, j) != id
        } by {
            assert(img.is_slot(d2, k, j));
            assert(mid.links(d2, k, j));
            assert(mid.entry_at(d2, k, j) == self.entry_at(d2, k, j));
        }
        assert forall|d2: int, k: int, j: int|
            #[trigger] self.links(d2, k, j) && !(d2 == d && k == k0 && j == j0) implies img.links(
            d2,
            k,
            j,
        ) && img.entry_at(d2, k, j) == self.entry_at(d2, k, j) by {
            assert(mid.links(d2, k, j));
            assert(img.is_slot(d2, k, j));
            assert(mid.entry_at(d2, k, j) == self.entry_at(d2, k, j));
        }
        assert forall|i: int| 0 <= i < img.inodes.len() implies #[trigger] img.node_sound(i) by {
            assert(mid.node_sound(i));
            if i != id {
                assert(mid.keeps(img, i));
                mid.lemma_keeps_node(img, i);
            }
        }
        assert forall|d2: int, k: int, j: int| #[trigger] img.links(d2, k, j) implies {
            let x = img.target(d2, k, j);
            0 < x < INODE_COUNT && img.inodes[x as int].allocated
        } by {
            assert(self.links(d2, k, j));
        }
        assert(img.links_distinct()) by {
            assert forall|d1: int, k: int, j: int, d2: int, k2: int, j2: int|
                #[trigger] img.links(d1, k, j) && #[trigger] img.links(d2, k2, j2) && img.target(
                    d1,
                    k,
                    j,
                ) == img.target(d2, k2, j2) implies d1 == d2 && k == k2 && j == j2 by {
                assert(self.links(d1, k, j) && self.links(d2, k2, j2));
            }
        }
        assert(img.labels_distinct()) by {
            assert forall|d2: int, k: int, j: int, k2: int, j2: int|
                #[trigger] img.links(d2, k, j) && #[trigger] img.links(d2, k2, j2) && img.label(
                    d2,
                    k,
                    j,
                ) == img.label(d2, k2, j2) implies k == k2 && j == j2 by {
                assert(self.links(d2, k, j) && self.links(d2, k2, j2));
            }
        }
        assert(img.labels_proper()) by {
            assert forall|d2: int, k: int, j: int| #[trigger]
                img.links(d2, k, j) implies proper_name(img.label(d2, k, j)) by {
                assert(self.links(d2, k, j));
            }
        }
        assert(img.sound());
        if self.readable() {
            assert forall|d2: int, k: int, j: int|
                img.is_slot(d2, k, j) implies #[trigger] img.entry_at(d2, k, j) is Ok by {
                assert(mid.is_slot(d2, k, j));
                assert(mid.entry_at(d2, k, j) is Ok);
            }
        }
        assert(mid.keeps(img, d as int));
        mid.lemma_keeps_entries(img, d as int);
        mid.lemma_keeps(img, d as int);
        assert forall|d2: int| #[trigger] img.is_dir(d2) implies (self.entries(
            self.inodes[d2],
        ) is Ok <==> img.entries(img.inodes[d2]) is Ok) by {
            if d2 != d {
                assert(self.keeps(img, d2));
                self.lemma_keeps_entries(img, d2);
            }
        }
        assert(img.added(self, d as int, name, id));
    }

    /// A file, or a directory that lists nothing, holds no entries in use.
    proof fn lemma_holds_nothing(self, id: u32)
        requires
            self.sound(),
            id < self.inodes.len(),
            self.kind(id) == FileKind::Directory ==> self.list(id) == Ok::<
                Seq<ItemView>,
                ErrorView,
            >(Seq::empty()),
        ensures
            forall|k: int, j: int| !#[trigger] self.links(id as int, k, j),
    {
        assert forall|k: int, j: int| !#[trigger] self.links(id as int, k, j) by {
            if self.links(id as int, k, j) {
                let item = self.item(self.entry_at(id as int, k, j)->Ok_0);
                self.lemma_list_items(id, item);
                assert(self.list(id)->Ok_0.contains(item));
            }
        }
    }

    /// Removing the file or the directory at `path`: what it works on.
    pub proof fn lemma_remove(self, path: Seq<char>)
        requires
            self.sound(),
        ensures
            split_last(path) matches Ok(Some((parts, name))) ==> (self.occupant(
                parts,
                name,
                path,
            ) matches Ok((d, id)) ==> {
                &&& self.is_dir(d as int)
                &&& id < self.inodes.len()
                &&& self.resolve(parts) == Ok::<u32, ErrorView>(d)
                &&& self.lookup(path) == Ok::<u32, ErrorView>(id)
                &&& split(path) == Ok::<Seq<Seq<char>>, ErrorView>(parts.push(name))
                &&& (self.kind(id) == FileKind::Directory ==> self.list(id) == Ok::<
                    Seq<ItemView>,
                    ErrorView,
                >(Seq::empty())) ==> self.removable(d, name, id)
            }),
    {
        if let Ok(Some((parts, name))) = split_last(path) {
            self.lemma_resolve_allocated(parts);
            let all = split(path)->Ok_0;
            assert(parts.push(name) =~= all);
            if let Ok((d, id)) = self.occupant(parts, name, path) {
                self.lemma_step(d, name);
                self.lemma_resolve_allocated(all);
                if self.kind(id) == FileKind::Directory ==> self.list(id) == Ok::<
                    Seq<ItemView>,
                    ErrorView,
                >(Seq::empty()) {
                    self.lemma_holds_nothing(id);
                }
            }
        }
    }
}

impl ImageView {
    /// A successful removal is the removal of the occupant of the path.
    pub proof fn lemma_removed(self, path: Seq<char>)
        requires
            self.sound(),
        ensures
            self.unlink(path).1 is Ok ==> ({
                let (parts, name) = split_last(path)->Ok_0->Some_0;
                let (d, id) = self.occupant(parts, name, path)->Ok_0;
                &&& split_last(path) matches Ok(Some(_))
                &&& self.occupant(parts, name, path) is Ok
                &&& self.kind(id) == FileKind::File
                &&& self.removable(d, name, id)
                &&& self.unlink(path).0 == self.detach(d, name, id).0
            }),
            self.rmdir(path).1 is Ok ==> ({
                let (parts, name) = split_last(path)->Ok_0->Some_0;
                let (d, id) = self.occupant(parts, name, path)->Ok_0;
                &&& split_last(path) matches Ok(Some(_))
                &&& self.occupant(parts, name, path) is Ok
                &&& self.kind(id) == FileKind::Directory
                &&& self.removable(d, name, id)
                &&& self.rmdir(path).0 == self.detach(d, name, id).0
            }),
            self.unlink(path).1 is Err ==> self.unlink(path).0 == self,
            self.rmdir(path).1 is Err ==> self.rmdir(path).0 == self,
    {
        self.lemma_remove(path);
        if let Ok(Some((parts, name))) = split_last(path) {
            if let Ok((d, id)) = self.occupant(parts, name, path) {
                if self.kind(id) == FileKind::File {
                    self.lemma_detach(d, name, id);
                } else if let Ok(items) = self.list(id) {
                    if items.len() == 0 {
                        assert(items =~= Seq::empty());
                        self.lemma_detach(d, name, id);
                    }
                }
            }
        }
    }

    /// After a removal, exactly the names that led to the inode are gone.
    pub proof fn lemma_detached_names(
        self,
        d: u32,
        name: Seq<char>,
        id: u32,
        parts: Seq<Seq<char>>,
        q: Seq<char>,
        x: u32,
    )
        requires
            self.sound(),
            self.removable(d, name, id),
            self.resolve(parts) == Ok::<u32, ErrorView>(d),
        ensures
            ({
                let img = self.detach(d, name, id).0;
                &&& img.lookup(q) == Ok::<u32, ErrorView>(x) <==> self.lookup(q) == Ok::<
                    u32,
                    ErrorView,
                >(x) && x != id
                &&& img.resolve(parts.push(name)) == Err::<u32, ErrorView>(
                    ErrorView::NotFound(name),
                )
                &&& img.occupant(parts, name, q) == Err::<(u32, u32), ErrorView>(
                    ErrorView::NotFound(q),
                )
            }),
    {
        let img = self.detach(d, name, id).0;
        self.lemma_detach(d, name, id);
        if let Ok(all) = split(q) {
            img.lemma_added_resolve(self, d as int, name, id, all);
        }
        img.lemma_added_resolve(self, d as int, name, id, parts);
        assert(parts.push(name).drop_last() =~= parts);
        img.lemma_find(d as int, name);
        if let Ok(Some(e)) = img.find_entry(img.inodes[d as int], name) {
            let (k, j) = choose|k: int, j: int|
                {
                    &&& #[trigger] img.links(d as int, k, j)
                    &&& img.entry_at(d as int, k, j) == Ok::<EntryView, ErrorView>(e)
                    &&& e.name == name
                };
            assert(self.links(d as int, k, j));
            self.lemma_find(d as int, name);
            assert(img.inodes[img.target(d as int, k, j) as int].allocated);
        }
    }

    /// After a removal, everything but the parent directory and the removed
    /// inode is as before.
    proof fn lemma_detached_elsewhere(
        self,
        d: u32,
        name: Seq<char>,
        id: u32,
        parts: Seq<Seq<char>>,
        q: Seq<char>,
    )
        requires
            self.sound(),
            self.removable(d, name, id),
            self.resolve(parts) == Ok::<u32, ErrorView>(d),
            self.lookup(q) matches Ok(x) && x != id && x != d,
        ensures
            ({
                let img = self.detach(d, name, id).0;
                &&& img.read(q) == self.read(q)
                &&& img.stat(q) == self.stat(q)
                &&& img.readdir(q) == self.readdir(q)
            }),
    {
        let img = self.detach(d, name, id).0;
        let x: u32 = self.lookup(q)->Ok_0;
        self.lemma_detach(d, name, id);
        self.lemma_detached_names(d, name, id, parts, q, x);
        self.lemma_resolve_allocated(split(q)->Ok_0);
        assert(self.keeps(img, x as int));
        self.lemma_keeps(img, x as int);
        self.lemma_keeps_bytes(img, x);
        if self.kind(x) == FileKind::Directory {
            self.lemma_keeps_entries(img, x as int);
            if let Ok(es) = self.entries(self.inodes[x as int]) {
                self.lemma_entries_targets(x as int);
                img.lemma_entries_targets(x as int);
                assert forall|i: int| 0 <= i < es.len() && (#[trigger] es[i]).used implies img.kind(
                    es[i].inode,
                ) == self.kind(es[i].inode) by {
                    assert(img.inodes[es[i].inode as int].allocated);
                }
                self.lemma_listing_same(img, es);
            }
        }
    }

    /// After a removal, the parent lists one item less.
    proof fn lemma_detached_listed(
        self,
        d: u32,
        name: Seq<char>,
        id: u32,
        parts: Seq<Seq<char>>,
        parent: Seq<char>,
        item: ItemView,
    )
        requires
            self.sound(),
            self.removable(d, name, id),
            self.resolve(parts) == Ok::<u32, ErrorView>(d),
            self.lookup(parent) == Ok::<u32, ErrorView>(d),
        ensures
            ({
                let img = self.detach(d, name, id).0;
                &&& self.readdir(parent) is Ok
                &&& img.readdir(parent) is Ok
                &&& img.readdir(parent)->Ok_0.contains(item) <==> self.readdir(
                    parent,
                )->Ok_0.contains(item) && item.name != name
            }),
    {
        let img = self.detach(d, name, id).0;
        let dir = d as int;
        self.lemma_detach(d, name, id);
        self.lemma_detached_names(d, name, id, parts, parent, d);
        self.lemma_list_items(d, item);
        img.lemma_list_items(d, item);
        self.lemma_find(dir, name);
        let (k0, j0) = choose|k: int, j: int|
            #[trigger] self.links(dir, k, j) && self.label(dir, k, j) == name && self.target(
                dir,
                k,
                j,
            ) == id;
        assert(self.links(dir, k0, j0));
        if img.list(d)->Ok_0.contains(item) {
            let (k, j) = choose|k: int, j: int|
                #[trigger] img.links(dir, k, j) && img.item(img.entry_at(dir, k, j)->Ok_0) == item;
            assert(self.links(dir, k, j));
            assert(img.inodes[img.target(dir, k, j) as int].allocated);
            assert(self.item(self.entry_at(dir, k, j)->Ok_0) == item);
        }
        if self.list(d)->Ok_0.contains(item) && item.name != name {
            let (k, j) = choose|k: int, j: int|
                #[trigger] self.links(dir, k, j) && self.item(self.entry_at(dir, k, j)->Ok_0)
                    == item;
            assert(self.links(dir, k, j));
            assert(img.links(dir, k, j));
            assert(img.inodes[img.target(dir, k, j) as int].allocated);
            assert(img.item(img.entry_at(dir, k, j)->Ok_0) == item);
        }
    }

    /// A removal keeps a healthy image healthy.
    proof fn lemma_detached_healthy(self, d: u32, name: Seq<char>, id: u32)
        requires
            self.healthy(),
            self.removable(d, name, id),
        ensures
            self.detach(d, name, id).0.healthy(),
    {
        let img = self.detach(d, name, id).0;
        self.lemma_detach(d, name, id);
        assert forall|i: int|
            0 <= i < img.inodes.len() && (#[trigger] img.inodes[i]).allocated implies img.reachable(
            i,
        ) by {
            assert(self.inodes[i].allocated);
            let way = choose|way: Seq<Seq<char>>| #[trigger] self.leads_to(way, i);
            img.lemma_added_resolve(self, d as int, name, id, way);
            assert(img.leads_to(way, i));
        }
    }
}

/// A file that was removed is gone: its path leads nowhere, and a second
/// removal finds nothing.
pub proof fn law_unlink_gone(img: ImageView, path: Seq<char>)
    requires
        img.sound(),
        img.unlink(path).1 is Ok,
    ensures
        ({
            let after = img.unlink(path).0;
            let name = split_last(path)->Ok_0->Some_0.1;
            &&& img.lookup(path) is Ok
            &&& img.kind(img.lookup(path)->Ok_0) == FileKind::File
            &&& after.lookup(path) == Err::<u32, ErrorView>(ErrorView::NotFound(name))
            &&& after.read(path) == Err::<Seq<u8>, ErrorView>(ErrorView::NotFound(name))
            &&& after.unlink(path) == (after, Err::<(), ErrorView>(ErrorView::NotFound(path)))
        }),
{
    img.lemma_remove(path);
    img.lemma_removed(path);
    let (parts, name) = split_last(path)->Ok_0->Some_0;
    let (d, id) = img.occupant(parts, name, path)->Ok_0;
    img.lemma_detached_names(d, name, id, parts, path, id);
}

/// A directory that was removed is gone: its path leads nowhere, and a second
/// removal finds nothing.
pub proof fn law_rmdir_gone(img: ImageView, path: Seq<char>)
    requires
        img.sound(),
        img.rmdir(path).1 is Ok,
    ensures
        ({
            let after = img.rmdir(path).0;
            let name = split_last(path)->Ok_0->Some_0.1;
            &&& img.readdir(path) == Ok::<Seq<ItemView>, ErrorView>(Seq::empty())
            &&& after.lookup(path) == Err::<u32, ErrorView>(ErrorView::NotFound(name))
            &&& after.readdir(path) == Err::<Seq<ItemView>, ErrorView>(ErrorView::NotFound(name))
            &&& after.rmdir(path) == (after, Err::<(), ErrorView>(ErrorView::NotFound(path)))
        }),
{
    img.lemma_remove(path);
    img.lemma_removed(path);
    let (parts, name) = split_last(path)->Ok_0->Some_0;
    let (d, id) = img.occupant(parts, name, path)->Ok_0;
    img.lemma_detached_names(d, name, id, parts, path, id);
    assert(img.list(id)->Ok_0 =~= Seq::empty());
}

/// Removing a file removes its name and no other: every other path names what
/// it named before.
pub proof fn law_unlink_keeps_names(img: ImageView, path: Seq<char>, q: Seq<char>, x: u32)
    requires
        img.sound(),
        img.unlink(path).1 is Ok,
    ensures
        img.unlink(path).0.lookup(q) == Ok::<u32, ErrorView>(x) <==> img.lookup(q) == Ok::<
            u32,
            ErrorView,
        >(x) && img.lookup(path) != Ok::<u32, ErrorView>(x),
{
    img.lemma_remove(path);
    img.lemma_removed(path);
    let (parts, name) = split_last(path)->Ok_0->Some_0;
    let (d, id) = img.occupant(parts, name, path)->Ok_0;
    img.lemma_detached_names(d, name, id, parts, q, x);
}

/// Removing a directory removes its name and no other: every other path names
/// what it named before.
pub proof fn law_rmdir_keeps_names(img: ImageView, path: Seq<char>, q: Seq<char>, x: u32)
    requires
        img.sound(),
        img.rmdir(path).1 is Ok,
    ensures
        img.rmdir(path).0.lookup(q) == Ok::<u32, ErrorView>(x) <==> img.lookup(q) == Ok::<
            u32,
            ErrorView,
        >(x) && img.lookup(path) != Ok::<u32, ErrorView>(x),
{
    img.lemma_remove(path);
    img.lemma_removed(path);
    let (parts, name) = split_last(path)->Ok_0->Some_0;
    let (d, id) = img.occupant(parts, name, path)->Ok_0;
    img.lemma_detached_names(d, name, id, parts, q, x);
}

/// A removal changes nothing but the parent directory: what any other path
/// reads, shows or lists stays the same.
pub proof fn law_remove_keeps_others(img: ImageView, path: Seq<char>, q: Seq<char>)
    requires
        img.sound(),
        img.lookup(q) is Ok,
        img.lookup(q) != img.lookup(path),
        split_last(path) matches Ok(Some((parts, _))) ==> img.lookup(q) != img.resolve(parts),
    ensures
        img.unlink(path).0.read(q) == img.read(q),
        img.unlink(path).0.stat(q) == img.stat(q),
        img.unlink(path).0.readdir(q) == img.readdir(q),
        img.rmdir(path).0.read(q) == img.read(q),
        img.rmdir(path).0.stat(q) == img.stat(q),
        img.rmdir(path).0.readdir(q) == img.readdir(q),
{
    img.lemma_remove(path);
    img.lemma_removed(path);
    if let Ok(Some((parts, name))) = split_last(path) {
        if let Ok((d, id)) = img.occupant(parts, name, path) {
            if img.unlink(path).1 is Ok || img.rmdir(path).1 is Ok {
                img.lemma_detached_elsewhere(d, name, id, parts, q);
            }
        }
    }
}

/// After a removal the parent lists what it listed before but the removed
/// name, and nothing else.
pub proof fn law_remove_listed(img: ImageView, path: Seq<char>, parent: Seq<char>, item: ItemView)
    requires
        img.sound(),
        split_last(path) matches Ok(Some((parts, _))) && img.lookup(parent) == img.resolve(parts),
    ensures
        img.unlink(path).1 is Ok ==> ({
            let after = img.unlink(path).0;
            &&& img.readdir(parent) is Ok
            &&& after.readdir(parent) is Ok
            &&& after.readdir(parent)->Ok_0.contains(item) <==> img.readdir(
                parent,
            )->Ok_0.contains(item) && item.name != split_last(path)->Ok_0->Some_0.1
        }),
        img.rmdir(path).1 is Ok ==> ({
            let after = img.rmdir(path).0;
            &&& img.readdir(parent) is Ok
            &&& after.readdir(parent) is Ok
            &&& after.readdir(parent)->Ok_0.contains(item) <==> img.readdir(
                parent,
            )->Ok_0.contains(item) && item.name != split_last(path)->Ok_0->Some_0.1
        }),
{
    img.lemma_remove(path);
    img.lemma_removed(path);
    let (parts, name) = split_last(path)->Ok_0->Some_0;
    if let Ok((d, id)) = img.occupant(parts, name, path) {
        if img.unlink(path).1 is Ok || img.rmdir(path).1 is Ok {
            img.lemma_detached_listed(d, name, id, parts, parent, item);
        }
    }
}

/// `unlink` refuses directories and `rmdir` refuses files; both then leave the
/// image as it is.
pub proof fn law_remove_minds_kinds(img: ImageView, path: Seq<char>)
    requires
        img.lookup(path) is Ok,
        split_last(path) matches Ok(Some(_)),
    ensures
        img.kind(img.lookup(path)->Ok_0) == FileKind::Directory ==> img.unlink(path) == (
            img,
            Err::<(), ErrorView>(ErrorView::IsADirectory(path)),
        ),
        img.kind(img.lookup(path)->Ok_0) == FileKind::File ==> img.rmdir(path) == (
            img,
            Err::<(), ErrorView>(ErrorView::NotADirectory(path)),
        ),
{
}

/// Nothing is removed below a file: the attempt says that the parent is no
/// directory, whatever the bytes of the file are, and changes nothing.
pub proof fn law_remove_minds_parent(img: ImageView, path: Seq<char>)
    requires
        split_last(path) matches Ok(Some((parts, _))) && (img.resolve(parts) matches Ok(d)
            && img.kind(d) == FileKind::File),
    ensures
        img.unlink(path) == (img, Err::<(), ErrorView>(ErrorView::NotADirectory(path))),
        img.rmdir(path) == (img, Err::<(), ErrorView>(ErrorView::NotADirectory(path))),
{
}

/// `rmdir` refuses a directory that lists something, and leaves the image as
/// it is.
pub proof fn law_rmdir_minds_entries(img: ImageView, path: Seq<char>)
    requires
        img.readdir(path) matches Ok(items) && items.len() > 0,
        split_last(path) matches Ok(Some(_)),
    ensures
        img.rmdir(path) == (
            img,
            Err::<(), ErrorView>(ErrorView::AlreadyExists(path + " not empty"@)),
        ),
{
}

/// A removal that fails leaves the image as it is.
pub proof fn law_failed_remove_unchanged(img: ImageView, path: Seq<char>)
    ensures
        img.unlink(path).1 is Err ==> img.unlink(path).0 == img,
        img.rmdir(path).1 is Err ==> img.rmdir(path).0 == img,
{
}

/// A removal keeps the tables in agreement.
pub proof fn law_remove_sound(img: ImageView, path: Seq<char>)
    requires
        img.sound(),
    ensures
        img.unlink(path).0.sound(),
        img.rmdir(path).0.sound(),
{
    img.lemma_removed(path);
    if let Ok(Some((parts, name))) = split_last(path) {
        if let Ok((d, id)) = img.occupant(parts, name, path) {
            if img.unlink(path).1 is Ok || img.rmdir(path).1 is Ok {
                img.lemma_detach(d, name, id);
            }
        }
    }
}

/// A removal keeps a healthy image healthy.
pub proof fn law_remove_healthy(img: ImageView, path: Seq<char>)
    requires
        img.healthy(),
    ensures
        img.unlink(path).0.healthy(),
        img.rmdir(path).0.healthy(),
{
    img.lemma_removed(path);
    if let Ok(Some((parts, name))) = split_last(path) {
        if let Ok((d, id)) = img.occupant(parts, name, path) {
            if img.unlink(path).1 is Ok || img.rmdir(path).1 is Ok {
                img.lemma_detached_healthy(d, name, id);
            }
        }
    }
}

} // verus!
