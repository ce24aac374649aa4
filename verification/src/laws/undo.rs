//! Removing what was made: how the two undo each other, and the order of
//! listings under both.

use vstd::prelude::*;
use crate::error::ErrorView;
use crate::inode::{empty_inode, FileKind};
use crate::laws::check::law_healthy_clean;
use crate::laws::listing::not_named;
use crate::laws::make::{law_make_healthy, law_make_sound};
use crate::laws::remove::{law_remove_healthy, law_rmdir_gone, law_unlink_gone};
use crate::laws::space::law_remove_frees;
use crate::model::entry::EntryView;
use crate::model::image::ImageView;
use crate::model::tree::{ItemView, StatView};
use crate::path::{split, split_last};

verus! {

impl ImageView {
    /// Where one name was added to a directory, the rest of its listing is the
    /// listing that was.
    pub proof fn lemma_added_list(self, img: ImageView, d: u32, name: Seq<char>, id: u32)
        requires
            self.sound(),
            img.sound(),
            self.added(img, d as int, name, id),
        ensures
            img.is_dir(d as int),
            img.list(d) is Ok,
            self.list(d) == Ok::<Seq<ItemView>, ErrorView>(
                img.list(d)->Ok_0.filter(not_named(name)),
            ),
    {
        let dir = d as int;
        let keep = not_named(name);
        assert(self.inodes[dir].allocated);
        let (k0, j0) = choose|k: int, j: int|
            #[trigger] img.links(dir, k, j) && img.label(dir, k, j) == name && img.target(dir, k, j)
                == id;
        assert(img.links(dir, k0, j0));
        assert forall|k: int, j: int| #[trigger] self.links(dir, k, j) implies {
            let e = self.entry_at(dir, k, j)->Ok_0;
            &&& img.links(dir, k, j)
            &&& img.entry_at(dir, k, j) == self.entry_at(dir, k, j)
            &&& self.item(e) == img.item(e)
            &&& keep(img.item(e))
        } by {
            assert(self.inodes[self.target(dir, k, j) as int].allocated);
            assert(img.links(dir, k, j));
        }
        assert forall|k: int, j: int|
            #[trigger] img.links(dir, k, j) && keep(
                img.item(img.entry_at(dir, k, j)->Ok_0),
            ) implies self.links(dir, k, j) by {}
        img.lemma_list_filter(self, d, keep);
    }

    /// A file, or a directory that lists nothing, other than the root is the
    /// occupant of its path and can be removed.
    proof fn lemma_occupied(self, path: Seq<char>)
        requires
            self.sound(),
            self.lookup(path) is Ok,
            split_last(path) matches Ok(Some(_)),
        ensures
            ({
                let (parts, name) = split_last(path)->Ok_0->Some_0;
                &&& self.occupant(parts, name, path) is Ok
                &&& self.occupant(parts, name, path)->Ok_0.1 == self.lookup(path)->Ok_0
                &&& self.occupant(parts, name, path)->Ok_0.0 == self.resolve(parts)->Ok_0
            }),
    {
    }

    /// After a removal the parent lists what it listed before without the
    /// removed name, in the same order, and shows what it showed.
    proof fn lemma_detached_parent(
        self,
        d: u32,
        name: Seq<char>,
        id: u32,
        parts: Seq<Seq<char>>,
        parent: Seq<char>,
    )
        requires
            self.sound(),
            self.removable(d, name, id),
            self.resolve(parts) == Ok::<u32, ErrorView>(d),
            self.lookup(parent) == Ok::<u32, ErrorView>(d),
        ensures
            ({
                let img = self.detach(d, name, id).0;
                &&& self.readdir(parent) is Ok
                &&& img.readdir(parent) == Ok::<Seq<ItemView>, ErrorView>(
                    self.readdir(parent)->Ok_0.filter(not_named(name)),
                )
                &&& img.stat(parent) == self.stat(parent)
            }),
    {
        let img = self.detach(d, name, id).0;
        self.lemma_detach(d, name, id);
        img.lemma_added_list(self, d, name, id);
        self.lemma_detached_names(d, name, id, parts, parent, d);
    }
}

/// What the removal of a file does: it succeeds, the path leads nowhere
/// afterwards, the inode is free again, and so is every block that the file
/// had. The parent lists what it listed before without the name, in the same
/// order, and keeps its size and its blocks.
pub proof fn law_unlink_outcome(img: ImageView, path: Seq<char>, parent: Seq<char>)
    requires
        img.sound(),
        img.stat(path) matches Ok(st) && st.kind == FileKind::File,
        split_last(path) matches Ok(Some((parts, _))) ==> img.lookup(parent) == img.resolve(parts),
    ensures
        ({
            let (after, r) = img.unlink(path);
            let name = split_last(path)->Ok_0->Some_0.1;
            let id = img.lookup(path)->Ok_0;
            &&& split_last(path) matches Ok(Some(_))
            &&& r == Ok::<(), ErrorView>(())
            &&& after.read(path) == Err::<Seq<u8>, ErrorView>(ErrorView::NotFound(name))
            &&& after.stat(path) == Err::<StatView, ErrorView>(ErrorView::NotFound(name))
            &&& after.inodes == img.inodes.update(id as int, empty_inode(id))
            &&& after.free_blocks() == img.free_blocks() + img.stat(path)->Ok_0.blocks
            &&& img.readdir(parent) is Ok
            &&& after.readdir(parent) == Ok::<Seq<ItemView>, ErrorView>(
                img.readdir(parent)->Ok_0.filter(not_named(name)),
            )
            &&& after.stat(parent) == img.stat(parent)
        }),
{
    let all = split(path)->Ok_0;
    if all.len() == 0 {
        assert(img.is_dir(0));
    }
    let (parts, name) = split_last(path)->Ok_0->Some_0;
    img.lemma_occupied(path);
    img.lemma_remove(path);
    let (d, id) = img.occupant(parts, name, path)->Ok_0;
    img.lemma_detach(d, name, id);
    img.lemma_detached_parent(d, name, id, parts, parent);
    law_unlink_gone(img, path);
    law_remove_frees(img, path);
}

/// What the removal of a directory does that lists nothing and is not the
/// root: it succeeds, the path leads nowhere afterwards, the inode is free
/// again, and so is every block that the directory had. The parent lists what
/// it listed before without the name, in the same order, and keeps its size
/// and its blocks.
pub proof fn law_rmdir_outcome(img: ImageView, path: Seq<char>, parent: Seq<char>)
    requires
        img.sound(),
        img.readdir(path) == Ok::<Seq<ItemView>, ErrorView>(Seq::empty()),
        split_last(path) matches Ok(Some((parts, _))) && img.lookup(parent) == img.resolve(parts),
    ensures
        ({
            let (after, r) = img.rmdir(path);
            let name = split_last(path)->Ok_0->Some_0.1;
            let id = img.lookup(path)->Ok_0;
            &&& r == Ok::<(), ErrorView>(())
            &&& after.readdir(path) == Err::<Seq<ItemView>, ErrorView>(ErrorView::NotFound(name))
            &&& after.stat(path) == Err::<StatView, ErrorView>(ErrorView::NotFound(name))
            &&& after.inodes == img.inodes.update(id as int, empty_inode(id))
            &&& after.free_blocks() == img.free_blocks() + img.stat(path)->Ok_0.blocks
            &&& img.readdir(parent) is Ok
            &&& after.readdir(parent) == Ok::<Seq<ItemView>, ErrorView>(
                img.readdir(parent)->Ok_0.filter(not_named(name)),
            )
            &&& after.stat(parent) == img.stat(parent)
        }),
{
    let (parts, name) = split_last(path)->Ok_0->Some_0;
    img.lemma_occupied(path);
    img.lemma_remove(path);
    let (d, id) = img.occupant(parts, name, path)->Ok_0;
    img.lemma_detach(d, name, id);
    img.lemma_detached_parent(d, name, id, parts, parent);
    law_rmdir_gone(img, path);
    law_remove_frees(img, path);
}

/// Making an entry keeps the order of the parent's listing: without the new
/// name it is the listing that was.
pub proof fn law_make_keeps_order(img: ImageView, path: Seq<char>, parent: Seq<char>)
    requires
        img.sound(),
        split_last(path) matches Ok(Some((parts, _))) && img.lookup(parent) == img.resolve(parts),
    ensures
        ({
            let name = split_last(path)->Ok_0->Some_0.1;
            &&& img.create(path).1 is Ok ==> {
                &&& img.create(path).0.readdir(parent) is Ok
                &&& img.readdir(parent) == Ok::<Seq<ItemView>, ErrorView>(
                    img.create(path).0.readdir(parent)->Ok_0.filter(not_named(name)),
                )
            }
            &&& img.mkdir(path).1 is Ok ==> {
                &&& img.mkdir(path).0.readdir(parent) is Ok
                &&& img.readdir(parent) == Ok::<Seq<ItemView>, ErrorView>(
                    img.mkdir(path).0.readdir(parent)->Ok_0.filter(not_named(name)),
                )
            }
        }),
{
    if img.create(path).1 is Ok {
        img.lemma_made_order(path, FileKind::File, ErrorView::InvalidPath(path), parent);
    }
    if img.mkdir(path).1 is Ok {
        img.lemma_made_order(path, FileKind::Directory, ErrorView::AlreadyExists("/"@), parent);
    }
}

impl ImageView {
    /// Making an entry keeps the order of the parent's listing.
    proof fn lemma_made_order(
        self,
        path: Seq<char>,
        kind: FileKind,
        at_root: ErrorView,
        parent: Seq<char>,
    )
        requires
            self.sound(),
            split_last(path) matches Ok(Some((parts, _))) && self.lookup(parent) == self.resolve(
                parts,
            ),
            self.make(path, kind, at_root).1 is Ok,
        ensures
            ({
                let img = self.make(path, kind, at_root).0;
                &&& img.readdir(parent) is Ok
                &&& self.readdir(parent) == Ok::<Seq<ItemView>, ErrorView>(
                    img.readdir(parent)->Ok_0.filter(
                        not_named(split_last(path)->Ok_0->Some_0.1),
                    ),
                )
            }),
    {
        let (img, r) = self.make(path, kind, at_root);
        let (parts, name) = split_last(path)->Ok_0->Some_0;
        let id: u32 = r->Ok_0;
        self.lemma_make(path, kind, at_root);
        let dir: u32 = self.vacancy(parts, name, path)->Ok_0;
        self.lemma_make_in(dir, name, kind);
        self.lemma_made_names(path, kind, at_root, parent);
        self.lemma_added_list(img, dir, name, id);
    }

    /// This image and `img` both lack the one name that `mid` has more, and
    /// agree in all inodes in use but the directory that holds it.
    pub open spec fn restored(
        self,
        mid: ImageView,
        img: ImageView,
        d: u32,
        name: Seq<char>,
        id: u32,
    ) -> bool {
        &&& self.sound()
        &&& mid.sound()
        &&& img.sound()
        &&& self.added(mid, d as int, name, id)
        &&& img.added(mid, d as int, name, id)
        &&& forall|i: int|
            0 <= i < self.inodes.len() && i != d && (#[trigger] self.inodes[i]).allocated
                ==> self.keeps(img, i)
    }

    /// A name leads from a directory where it led before the name was added.
    proof fn lemma_restored_find(
        self,
        mid: ImageView,
        img: ImageView,
        d: u32,
        name: Seq<char>,
        id: u32,
        part: Seq<char>,
    )
        requires
            self.restored(mid, img, d, name, id),
        ensures
            img.find_entry(img.inodes[d as int], part) == self.find_entry(
                self.inodes[d as int],
                part,
            ),
    {
        let dir = d as int;
        assert forall|k: int, j: int| #[trigger] self.links(dir, k, j) implies img.links(dir, k, j)
            && img.entry_at(dir, k, j) == self.entry_at(dir, k, j) by {
            assert(mid.links(dir, k, j));
            assert(self.inodes[self.target(dir, k, j) as int].allocated);
        }
        assert forall|k: int, j: int| #[trigger] img.links(dir, k, j) implies self.links(dir, k, j)
            by {
            assert(mid.links(dir, k, j));
            assert(img.inodes[img.target(dir, k, j) as int].allocated);
        }
        self.lemma_find(dir, part);
        img.lemma_find(dir, part);
        if let Ok(Some(e)) = self.find_entry(self.inodes[dir], part) {
            let (k, j) = choose|k: int, j: int|
                {
                    &&& #[trigger] self.links(dir, k, j)
                    &&& self.entry_at(dir, k, j) == Ok::<EntryView, ErrorView>(e)
                    &&& e.name == part
                };
            assert(img.links(dir, k, j));
        } else if let Ok(Some(e)) = img.find_entry(img.inodes[dir], part) {
            let (k, j) = choose|k: int, j: int|
                {
                    &&& #[trigger] img.links(dir, k, j)
                    &&& img.entry_at(dir, k, j) == Ok::<EntryView, ErrorView>(e)
                    &&& e.name == part
                };
            assert(self.links(dir, k, j));
        }
    }

    /// An inode in use before is in use again, of the same kind, and no other
    /// is.
    proof fn lemma_restored_kinds(
        self,
        mid: ImageView,
        img: ImageView,
        d: u32,
        name: Seq<char>,
        id: u32,
        i: int,
    )
        requires
            self.restored(mid, img, d, name, id),
            0 <= i < self.inodes.len(),
        ensures
            img.inodes[i].allocated == self.inodes[i].allocated,
            self.inodes[i].allocated ==> img.inodes[i].kind == self.inodes[i].kind,
    {
        if self.inodes[i].allocated {
            assert(mid.inodes[i].allocated);
        }
        if img.inodes[i].allocated {
            assert(mid.inodes[i].allocated);
        }
    }

    /// Names lead where they led before.
    proof fn lemma_restored_resolve(
        self,
        mid: ImageView,
        img: ImageView,
        d: u32,
        name: Seq<char>,
        id: u32,
        parts: Seq<Seq<char>>,
    )
        requires
            self.restored(mid, img, d, name, id),
        ensures
            img.resolve(parts) == self.resolve(parts),
        decreases parts.len(),
    {
        if parts.len() > 0 {
            let head = parts.drop_last();
            self.lemma_restored_resolve(mid, img, d, name, id, head);
            self.lemma_resolve_allocated(head);
            if let Ok(x) = self.resolve(head) {
                self.lemma_restored_kinds(mid, img, d, name, id, x as int);
                if x == d {
                    self.lemma_restored_find(mid, img, d, name, id, parts.last());
                } else {
                    assert(self.inodes[x as int].allocated);
                    self.lemma_keeps_entries(img, x as int);
                }
            }
        }
    }

    /// What can be read, listed and seen is as before, but for the size and
    /// the blocks of the directory that held the name.
    proof fn lemma_restored(
        self,
        mid: ImageView,
        img: ImageView,
        d: u32,
        name: Seq<char>,
        id: u32,
        q: Seq<char>,
    )
        requires
            self.restored(mid, img, d, name, id),
        ensures
            img.lookup(q) == self.lookup(q),
            img.read(q) == self.read(q),
            img.readdir(q) == self.readdir(q),
            self.lookup(q) != Ok::<u32, ErrorView>(d) ==> img.stat(q) == self.stat(q),
            img.in_use() == self.in_use(),
    {
        assert(img.in_use() =~= self.in_use()) by {
            assert forall|i: int| 0 <= i < self.inodes.len() implies img.in_use()[i]
                == self.in_use()[i] by {
                self.lemma_restored_kinds(mid, img, d, name, id, i);
            }
        }
        if let Ok(parts) = split(q) {
            self.lemma_restored_resolve(mid, img, d, name, id, parts);
            self.lemma_resolve_allocated(parts);
            if let Ok(x) = self.resolve(parts) {
                self.lemma_restored_kinds(mid, img, d, name, id, x as int);
                if x == d {
                    self.lemma_added_list(mid, d, name, id);
                    img.lemma_added_list(mid, d, name, id);
                } else {
                    assert(self.inodes[x as int].allocated);
                    self.lemma_keeps(img, x as int);
                    self.lemma_keeps_bytes(img, x);
                    if self.kind(x) == FileKind::Directory {
                        self.lemma_keeps_entries(img, x as int);
                        if let Ok(es) = self.entries(self.inodes[x as int]) {
                            self.lemma_entries_targets(x as int);
                            assert forall|i: int|
                                0 <= i < es.len() && (#[trigger] es[i]).used implies img.kind(
                                es[i].inode,
                            ) == self.kind(es[i].inode) by {
                                self.lemma_restored_kinds(
                                    mid,
                                    img,
                                    d,
                                    name,
                                    id,
                                    es[i].inode as int,
                                );
                            }
                            self.lemma_listing_same(img, es);
                        }
                    }
                }
            }
        }
    }
}

impl ImageView {
    /// Giving back what was just made.
    proof fn lemma_made_detached(
        self,
        path: Seq<char>,
        kind: FileKind,
        at_root: ErrorView,
        q: Seq<char>,
    )
        requires
            self.sound(),
            self.make(path, kind, at_root).1 is Ok,
        ensures
            ({
                let (mid, r) = self.make(path, kind, at_root);
                let (parts, name) = split_last(path)->Ok_0->Some_0;
                let d = self.resolve(parts)->Ok_0;
                let (after, r2) = mid.detach(d, name, r->Ok_0);
                &&& split_last(path) matches Ok(Some(_))
                &&& self.resolve(parts) is Ok
                &&& mid.occupant(parts, name, path) == Ok::<(u32, u32), ErrorView>((d, r->Ok_0))
                &&& mid.kind(r->Ok_0) == kind
                &&& mid.list(r->Ok_0) == Ok::<Seq<ItemView>, ErrorView>(Seq::empty())
                &&& r2 is Ok
                &&& after.lookup(q) == self.lookup(q)
                &&& after.read(q) == self.read(q)
                &&& after.readdir(q) == self.readdir(q)
                &&& self.lookup(q) != self.resolve(parts) ==> after.stat(q) == self.stat(q)
                &&& after.in_use() == self.in_use()
                &&& after.sound()
            }),
    {
        self.lemma_make(path, kind, at_root);
        let (mid, made) = self.make(path, kind, at_root);
        let id: u32 = made->Ok_0;
        let (parts, name) = split_last(path)->Ok_0->Some_0;
        let d: u32 = self.vacancy(parts, name, path)->Ok_0;
        self.lemma_make_in(d, name, kind);
        self.lemma_made(path, kind, at_root);
        mid.lemma_occupied(path);
        mid.lemma_remove(path);
        self.lemma_added_resolve(mid, d as int, name, id, parts);
        mid.lemma_detach(d, name, id);
        let after = mid.detach(d, name, id).0;
        assert forall|i: int|
            0 <= i < self.inodes.len() && i != d && (
            #[trigger] self.inodes[i]).allocated implies self.keeps(after, i) by {
            assert(i != id);
            assert(self.keeps(mid, i));
            assert(mid.keeps(after, i));
            self.lemma_keeps_trans(mid, after, i);
        }
        self.lemma_restored(mid, after, d, name, id, q);
    }
}

/// Removing a file right after it was made undoes the making: the removal
/// succeeds, the path leads nowhere, every path reads and lists what it did
/// before, in the same order, the same inodes are in use, and a healthy image
/// is healthy and passes the consistency check. The parent alone may show
/// another size, since a directory does not give back the room that it gained.
pub proof fn law_unlink_undoes_create(img: ImageView, path: Seq<char>, q: Seq<char>)
    requires
        img.sound(),
        img.create(path).1 is Ok,
    ensures
        ({
            let mid = img.create(path).0;
            let (after, r) = mid.unlink(path);
            let (parts, name) = split_last(path)->Ok_0->Some_0;
            &&& split_last(path) matches Ok(Some(_))
            &&& r == Ok::<(), ErrorView>(())
            &&& after.stat(path) == Err::<StatView, ErrorView>(ErrorView::NotFound(name))
            &&& after.lookup(q) == img.lookup(q)
            &&& after.readdir(q) == img.readdir(q)
            &&& after.read(q) == img.read(q)
            &&& img.lookup(q) != img.resolve(parts) ==> after.stat(q) == img.stat(q)
            &&& after.in_use() == img.in_use()
            &&& after.sound()
            &&& img.healthy() ==> after.healthy() && after.issues().len() == 0
        }),
{
    let mid = img.create(path).0;
    let after = mid.unlink(path).0;
    img.lemma_made_detached(path, FileKind::File, ErrorView::InvalidPath(path), q);
    law_make_sound(img, path);
    law_unlink_gone(mid, path);
    if img.healthy() {
        law_make_healthy(img, path);
        law_remove_healthy(mid, path);
        law_healthy_clean(after);
    }
}

/// Removing a directory right after it was made undoes the making: the removal
/// succeeds, the path leads nowhere, every path reads and lists what it did
/// before, in the same order, the same inodes are in use, and a healthy image
/// is healthy and passes the consistency check. The parent alone may show
/// another size, since a directory does not give back the room that it gained.
pub proof fn law_rmdir_undoes_mkdir(img: ImageView, path: Seq<char>, q: Seq<char>)
    requires
        img.sound(),
        img.mkdir(path).1 is Ok,
    ensures
        ({
            let mid = img.mkdir(path).0;
            let (after, r) = mid.rmdir(path);
            let (parts, name) = split_last(path)->Ok_0->Some_0;
            &&& split_last(path) matches Ok(Some(_))
            &&& r == Ok::<(), ErrorView>(())
            &&& after.stat(path) == Err::<StatView, ErrorView>(ErrorView::NotFound(name))
            &&& after.lookup(q) == img.lookup(q)
            &&& after.readdir(q) == img.readdir(q)
            &&& after.read(q) == img.read(q)
            &&& img.lookup(q) != img.resolve(parts) ==> after.stat(q) == img.stat(q)
            &&& after.in_use() == img.in_use()
            &&& after.sound()
            &&& img.healthy() ==> after.healthy() && after.issues().len() == 0
        }),
{
    let mid = img.mkdir(path).0;
    let after = mid.rmdir(path).0;
    img.lemma_made_detached(path, FileKind::Directory, ErrorView::AlreadyExists("/"@), q);
    law_make_sound(img, path);
    law_rmdir_gone(mid, path);
    if img.healthy() {
        law_make_healthy(img, path);
        law_remove_healthy(mid, path);
        law_healthy_clean(after);
    }
}

} // verus!
