//! Making files and directories: what is there afterwards, and what stays as it
//! was.

use vstd::prelude::*;
use vstd::utf8::encode_utf8;
use crate::block::{DIR_ENTRY_SIZE, INODE_COUNT, MAX_NAME_LEN};
use crate::error::ErrorView;
use crate::inode::{fresh_inode, FileKind, InodeView, DIRECT_POINTERS, NULL_BLOCK};
use crate::model::dir::{block_entries, slot, unused};
use crate::model::entry::{decode_entry, fits_slot, law_entry_roundtrip, used_entry, EntryView};
use crate::model::image::{first_clear, last_clear_below, live, ImageView};
use crate::model::range::lemma_first_named;
use crate::model::tree::{ItemView, StatView};
use crate::path::{law_split_components, proper_name, split, split_last};

verus! {

impl ImageView {
    /// Claiming an inode changes no directory and no other inode.
    pub proof fn lemma_claim_inode(self, kind: FileKind)
        requires
            self.sound(),
        ensures
            ({
                let (img, r) = self.claim_inode(kind);
                match r {
                    Ok(id) => {
                        &&& 0 < id < INODE_COUNT
                        &&& id == self.vacant(kind)
                        &&& !self.inodes[id as int].allocated
                        &&& img.inodes == self.inodes.update(id as int, fresh_inode(id, kind))
                        &&& img.sound()
                        &&& self.same_places(img)
                        &&& self.keeps_others(img, id as int)
                        &&& img.unnamed(id)
                        &&& self.readable() ==> img.readable()
                    },
                    Err(_) => img == self && forall|i: int|
                        0 <= i < self.inodes.len() ==> (#[trigger] self.inodes[i]).allocated,
                }
            }),
    {
        let i = self.vacant(kind);
        self.lemma_vacant(kind);
        let (img, r) = self.claim_inode(kind);
        if i < self.inodes.len() {
            assert(self.node_sound(i));
            let id = i as u32;
            let node = img.inodes[i];
            assert(!self.in_use()[i]);
            assert(img.shaped());
            assert forall|x: int, s: int| self.is_field(x, s) implies #[trigger] img.field(x, s)
                == self.field(x, s) by {}
            self.lemma_same_fields(img);
            img.lemma_empty_covers_none(node);
            assert forall|x: int| 0 <= x < img.inodes.len() implies #[trigger] img.node_sound(
                x,
            ) by {
                assert(self.node_sound(x));
                if x != i {
                    assert(self.keeps(img, x));
                    self.lemma_keeps_node(img, x);
                }
            }
            assert forall|d: int, k: int, j: int| {
                &&& #[trigger] img.is_slot(d, k, j) <==> self.is_slot(d, k, j)
                &&& self.is_slot(d, k, j) ==> img.entry_at(d, k, j) == self.entry_at(d, k, j)
            } by {
                if self.is_dir(d) {
                    assert(self.keeps(img, d));
                    assert(self.node_sound(d));
                    self.lemma_keeps_places(img, d);
                    if self.is_slot(d, k, j) {
                        assert(img.entry_at(d, k, j) == self.entry_at(d, k, j));
                    }
                }
            }
            assert forall|d: int, k: int, j: int|
                self.is_slot(d, k, j) implies #[trigger] img.entry_at(d, k, j) == self.entry_at(
                d,
                k,
                j,
            ) by {
                assert(img.is_slot(d, k, j));
            }
            self.lemma_same_places_sound(img);
            assert forall|d: int, k: int, j: int| #[trigger]
                img.links(d, k, j) implies img.target(d, k, j) != id by {
                assert(self.links(d, k, j));
                assert(img.entry_at(d, k, j) == self.entry_at(d, k, j));
            }
            assert forall|x: int| 0 <= x < self.inodes.len() && x
                != i implies #[trigger] self.keeps(img, x) by {}
        } else {
            assert forall|x: int| 0 <= x < self.inodes.len() implies (
            #[trigger] self.inodes[x]).allocated by {
                assert(self.in_use()[x]);
            }
        }
    }

    /// A directory that could be read before an entry was added can be read
    /// after it.
    proof fn lemma_added_entries(
        self,
        img: ImageView,
        d: int,
        k0: int,
        j0: int,
        e: EntryView,
    )
        requires
            self.sound(),
            img.sound(),
            self.is_dir(d),
            self.entries(self.inodes[d]) is Ok,
            self.entry_changed(img, d, k0, j0, Ok(e)),
        ensures
            img.entries(img.inodes[d]) is Ok,
    {
        self.lemma_entries_places(d);
        assert(img.node_sound(d));
        let n = img.covered(img.inodes[d]);
        assert forall|k: int, j: int|
            0 <= k < n && 0 <= j < img.slots() implies #[trigger] img.entry_at(d, k, j) is Ok by {
            assert(img.is_slot(d, k, j));
            if self.is_slot(d, k, j) {
                assert(self.entry_at(d, k, j) is Ok);
            }
        }
        img.lemma_scan_ok(d, n);
    }

    /// What entering a name into a directory leaves behind.
    pub proof fn lemma_add_entry(self, d: int, name: Seq<char>, target: u32)
        requires
            self.sound(),
            self.slots() > 0,
            self.is_dir(d),
            self.entries(self.inodes[d]) is Ok,
            0 < target < INODE_COUNT,
            self.inodes[target as int].allocated,
            self.unnamed(target),
            forall|k: int, j: int| #[trigger]
                self.links(d, k, j) ==> self.label(d, k, j) != name,
            fits_slot(used_entry(name, target)),
            proper_name(name),
        ensures
            ({
                let (img, r) = self.add_entry(d, name, target);
                &&& img.sound()
                &&& self.keeps_others(img, d)
                &&& match r {
                    Ok(()) => {
                        &&& self.same_kinds(img)
                        &&& img.entries(img.inodes[d]) is Ok
                        &&& self.readable() ==> img.readable()
                        &&& forall|d2: int, k: int, j: int| #[trigger]
                            self.links(d2, k, j) ==> img.links(d2, k, j) && img.entry_at(d2, k, j)
                                == self.entry_at(d2, k, j)
                        &&& forall|d2: int, k: int, j: int| #[trigger]
                            img.links(d2, k, j) ==> {
                                ||| self.links(d2, k, j) && img.entry_at(d2, k, j)
                                    == self.entry_at(d2, k, j)
                                ||| d2 == d && img.label(d2, k, j) == name && img.target(d2, k, j)
                                    == target
                            }
                        &&& exists|k: int, j: int|
                            #[trigger] img.links(d, k, j) && img.label(d, k, j) == name
                                && img.target(d, k, j) == target
                    },
                    Err(_) => self.same_places(img) && (self.readable() ==> img.readable()),
                }
            }),
    {
        let node = self.inodes[d];
        let n = self.covered(node);
        let e = used_entry(name, target);
        let (img, r) = self.add_entry(d, name, target);
        self.lemma_covered_nonnegative(node);
        self.lemma_search(d, n, unused());
        self.lemma_entries_places(d);
        law_entry_roundtrip(e);
        match self.search(node, n, unused()) {
            Ok(Some((b, j0))) => {
                let k0 = choose|k: int|
                    {
                        &&& 0 <= k < n
                        &&& self.pointer(node, k) == b
                        &&& 0 <= j0 < self.slots()
                        &&& (#[trigger] self.entry_at(d, k, j0) matches Ok(x) && unused()(x))
                    };
                assert(self.is_slot(d, k0, j0));
                self.lemma_put(d, k0, j0, e);
                self.lemma_entry_added(img, d, k0, j0, name, target);
                self.lemma_added_entries(img, d, k0, j0, e);
                assert(img.links(d, k0, j0));
            },
            Ok(None) => {
                self.lemma_grow(d, e);
                if r is Ok {
                    assert(!self.is_slot(d, n, 0));
                    self.lemma_entry_added(img, d, n, 0, name, target);
                    self.lemma_added_entries(img, d, n, 0, e);
                    assert(img.links(d, n, 0));
                } else {
                    self.lemma_same_places_sound(img);
                }
            },
            Err(_) => {
                let (k, j) = choose|k: int, j: int|
                    0 <= k < n && 0 <= j < self.slots() && #[trigger] self.entry_at(d, k, j) is Err;
                assert(self.is_slot(d, k, j));
            },
        }
    }
}

/// Pointers of which none is used name no block.
pub proof fn lemma_live_null(s: Seq<u32>)
    requires
        forall|i: int| 0 <= i < s.len() ==> #[trigger] s[i] == NULL_BLOCK,
    ensures
        live(s).len() == 0,
    decreases s.len(),
{
    if s.len() > 0 {
        lemma_live_null(s.drop_last());
    }
}

impl ImageView {
    /// What claiming an inode and entering it into a directory leaves behind.
    pub proof fn lemma_make_in(self, dir: u32, name: Seq<char>, kind: FileKind)
        requires
            self.sound(),
            self.is_dir(dir as int),
            self.find_entry(self.inodes[dir as int], name) == Ok::<Option<EntryView>, ErrorView>(
                None,
            ),
            encode_utf8(name).len() <= MAX_NAME_LEN,
            proper_name(name),
        ensures
            ({
                let (img, r) = self.make_in(dir, name, kind);
                &&& img.sound()
                &&& forall|i: int|
                    0 <= i < self.inodes.len() && i != dir && (
                    #[trigger] self.inodes[i]).allocated ==> self.keeps(img, i)
                &&& match r {
                    Ok(id) => {
                        &&& 0 < id < INODE_COUNT
                        &&& id == self.vacant(kind)
                        &&& !self.inodes[id as int].allocated
                        &&& img.inodes[id as int] == fresh_inode(id, kind)
                        &&& self.added(img, dir as int, name, id)
                        &&& self.readable() ==> img.readable()
                    },
                    Err(e) => {
                        &&& self.same_places(img)
                        &&& e != ErrorView::OutOfSpace && e != ErrorView::FileTooLarge
                            || self.slots() == 0 ==> img == self
                    },
                }
            }),
    {
        let d = dir as int;
        let (mid, r1) = self.claim_inode(kind);
        let (img, r) = self.make_in(dir, name, kind);
        self.lemma_claim_inode(kind);
        if r1 is Err || self.slots() == 0 {
            assert(img == self);
            assert forall|i: int|
                0 <= i < self.inodes.len() && i != dir && (
                #[trigger] self.inodes[i]).allocated implies self.keeps(img, i) by {}
        } else {
            let id: u32 = r1->Ok_0;
            self.lemma_find(d, name);
            self.lemma_same_places_entries(mid, d);
            assert(self.inodes[d].allocated);
            assert forall|k: int, j: int| #[trigger] mid.links(d, k, j) implies mid.label(d, k, j)
                != name by {
                assert(mid.is_slot(d, k, j));
                assert(mid.entry_at(d, k, j) == self.entry_at(d, k, j));
                assert(self.links(d, k, j));
            }
            mid.lemma_add_entry(d, name, id);
            assert forall|i: int|
                0 <= i < self.inodes.len() && i != dir && (
                #[trigger] self.inodes[i]).allocated implies self.keeps(img, i) by {
                assert(self.keeps(mid, i));
                assert(mid.keeps(img, i));
                self.lemma_keeps_trans(mid, img, i);
            }
            assert(mid.keeps(img, id as int));
            if r is Ok {
                self.lemma_made_added(mid, img, d, name, id, kind);
            } else {
                assert(self.same_places(img)) by {
                    assert forall|i: int|
                        0 <= i < self.inodes.len() && (
                        #[trigger] self.inodes[i]).allocated implies {
                        &&& img.inodes[i].allocated
                        &&& img.inodes[i].kind == self.inodes[i].kind
                    } by {
                        assert(mid.inodes[i].allocated);
                    }
                    assert forall|d2: int, k: int, j: int| {
                        &&& #[trigger] img.is_slot(d2, k, j) <==> self.is_slot(d2, k, j)
                        &&& self.is_slot(d2, k, j) ==> img.entry_at(d2, k, j) == self.entry_at(
                            d2,
                            k,
                            j,
                        )
                    } by {
                        assert(mid.is_slot(d2, k, j) <==> self.is_slot(d2, k, j));
                        if self.is_slot(d2, k, j) {
                            assert(mid.entry_at(d2, k, j) == self.entry_at(d2, k, j));
                            assert(img.entry_at(d2, k, j) == mid.entry_at(d2, k, j));
                        }
                    }
                    assert forall|d2: int, k: int, j: int|
                        self.is_slot(d2, k, j) implies #[trigger] img.entry_at(d2, k, j)
                        == self.entry_at(d2, k, j) by {
                        assert(img.is_slot(d2, k, j));
                    }
                }
                mid.lemma_add_fails(d, name, id);
            }
        }
    }

    /// Entering a name into a directory that can be read fails for want of
    /// space alone.
    proof fn lemma_add_fails(self, d: int, name: Seq<char>, target: u32)
        requires
            self.sound(),
            self.is_dir(d),
            self.entries(self.inodes[d]) is Ok,
        ensures
            self.add_entry(d, name, target).1 matches Err(e) ==> e == ErrorView::OutOfSpace || e
                == ErrorView::FileTooLarge,
    {
        let node = self.inodes[d];
        self.lemma_covered_nonnegative(node);
        self.lemma_search(d, self.covered(node), unused());
        self.lemma_entries_places(d);
        if self.search(node, self.covered(node), unused()) is Err {
            let (k, j) = choose|k: int, j: int|
                0 <= k < self.covered(node) && 0 <= j < self.slots() && #[trigger] self.entry_at(
                    d,
                    k,
                    j,
                ) is Err;
            assert(self.is_slot(d, k, j));
        }
    }

    /// The two steps of making an entry add one name.
    proof fn lemma_made_added(
        self,
        mid: ImageView,
        img: ImageView,
        d: int,
        name: Seq<char>,
        id: u32,
        kind: FileKind,
    )
        requires
            self.sound(),
            mid.sound(),
            img.sound(),
            self.is_dir(d),
            self.entries(self.inodes[d]) is Ok,
            0 < id < INODE_COUNT,
            !self.inodes[id as int].allocated,
            mid.inodes == self.inodes.update(id as int, fresh_inode(id, kind)),
            self.same_places(mid),
            self.keeps_others(mid, id as int),
            mid.keeps_others(img, d),
            mid.same_kinds(img),
            img.entries(img.inodes[d]) is Ok,
            forall|d2: int, k: int, j: int| #[trigger]
                mid.links(d2, k, j) ==> img.links(d2, k, j) && img.entry_at(d2, k, j)
                    == mid.entry_at(d2, k, j),
            forall|d2: int, k: int, j: int| #[trigger]
                img.links(d2, k, j) ==> {
                    ||| mid.links(d2, k, j) && img.entry_at(d2, k, j) == mid.entry_at(d2, k, j)
                    ||| d2 == d && img.label(d2, k, j) == name && img.target(d2, k, j) == id
                },
            exists|k: int, j: int|
                #[trigger] img.links(d, k, j) && img.label(d, k, j) == name && img.target(d, k, j)
                    == id,
        ensures
            self.added(img, d, name, id),
    {
        assert forall|i: int|
            0 <= i < self.inodes.len() && (#[trigger] self.inodes[i]).allocated implies {
            &&& img.inodes[i].allocated
            &&& img.inodes[i].kind == self.inodes[i].kind
        } by {
            assert(img.inodes[i].allocated == mid.inodes[i].allocated);
        }
        assert forall|i: int|
            0 <= i < img.inodes.len() && i != id && (#[trigger] img.inodes[i]).allocated implies
            self.inodes[i].allocated by {
            assert(img.inodes[i].allocated == mid.inodes[i].allocated);
        }
        assert forall|d2: int, k: int, j: int| #[trigger] mid.links(d2, k, j) <==> self.links(
            d2,
            k,
            j,
        ) by {
            assert(mid.is_slot(d2, k, j) <==> self.is_slot(d2, k, j));
            if self.is_slot(d2, k, j) {
                assert(mid.entry_at(d2, k, j) == self.entry_at(d2, k, j));
            }
        }
        assert forall|d2: int, k: int, j: int| #[trigger] self.links(d2, k, j) implies img.links(
            d2,
            k,
            j,
        ) && img.entry_at(d2, k, j) == self.entry_at(d2, k, j) by {
            assert(mid.links(d2, k, j));
            assert(mid.entry_at(d2, k, j) == self.entry_at(d2, k, j));
        }
        assert forall|d2: int, k: int, j: int| #[trigger] img.links(d2, k, j) implies {
            ||| self.links(d2, k, j) && img.entry_at(d2, k, j) == self.entry_at(d2, k, j)
            ||| d2 == d && img.label(d2, k, j) == name && img.target(d2, k, j) == id
        } by {
            if mid.links(d2, k, j) {
                assert(mid.entry_at(d2, k, j) == self.entry_at(d2, k, j));
            }
        }
        assert(mid.keeps(img, id as int));
        img.lemma_empty_covers_none(img.inodes[id as int]);
        assert forall|k: int, j: int| !#[trigger] img.links(id as int, k, j) by {}
        assert forall|d2: int| #[trigger] self.is_dir(d2) implies (img.entries(
            img.inodes[d2],
        ) is Ok <==> self.entries(self.inodes[d2]) is Ok) by {
            if d2 != d {
                assert(self.keeps(mid, d2));
                assert(mid.keeps(img, d2));
                self.lemma_keeps_trans(mid, img, d2);
                self.lemma_keeps_entries(img, d2);
            }
        }
    }
}

impl ImageView {
    /// Making an entry at `path` works on the parent directory, or changes
    /// nothing.
    pub proof fn lemma_make(self, path: Seq<char>, kind: FileKind, at_root: ErrorView)
        requires
            self.sound(),
        ensures
            match split_last(path) {
                Ok(Some((parts, name))) => match self.vacancy(parts, name, path) {
                    Ok(dir) => {
                        &&& self.make(path, kind, at_root) == if encode_utf8(name).len()
                            > MAX_NAME_LEN {
                            (self, Err::<u32, ErrorView>(ErrorView::InvalidPath(path)))
                        } else {
                            self.make_in(dir, name, kind)
                        }
                        &&& self.resolve(parts) == Ok::<u32, ErrorView>(dir)
                        &&& self.is_dir(dir as int)
                        &&& self.find_entry(self.inodes[dir as int], name) == Ok::<
                            Option<EntryView>,
                            ErrorView,
                        >(None)
                        &&& split(path) == Ok::<Seq<Seq<char>>, ErrorView>(parts.push(name))
                        &&& proper_name(name)
                    },
                    Err(e) => self.make(path, kind, at_root) == (self, Err::<u32, ErrorView>(e)),
                },
                Ok(None) => self.make(path, kind, at_root) == (self, Err::<u32, ErrorView>(
                    at_root,
                )),
                Err(e) => self.make(path, kind, at_root) == (self, Err::<u32, ErrorView>(e)),
            },
    {
        if let Ok(Some((parts, name))) = split_last(path) {
            self.lemma_resolve_allocated(parts);
            let all = split(path)->Ok_0;
            assert(parts.push(name) =~= all);
            law_split_components(path);
            assert(proper_name(all[all.len() - 1]));
        }
    }

    /// What making an entry leaves behind.
    pub proof fn lemma_made(self, path: Seq<char>, kind: FileKind, at_root: ErrorView)
        requires
            self.sound(),
        ensures
            ({
                let (img, r) = self.make(path, kind, at_root);
                &&& img.sound()
                &&& r matches Ok(id) ==> {
                    &&& id == self.vacant(kind)
                    &&& img.lookup(path) == Ok::<u32, ErrorView>(id)
                    &&& img.inodes[id as int] == fresh_inode(id, kind)
                    &&& img.gather(id as int).len() == 0
                    &&& img.file_bytes(id) == Ok::<Seq<u8>, ErrorView>(Seq::empty())
                    &&& img.list(id) == Ok::<Seq<ItemView>, ErrorView>(Seq::empty())
                    &&& self.lookup(path) is Err
                }
            }),
    {
        self.lemma_make(path, kind, at_root);
        let (img, r) = self.make(path, kind, at_root);
        if let Ok(Some((parts, name))) = split_last(path) {
            if encode_utf8(name).len() > MAX_NAME_LEN {
            } else if let Ok(dir) = self.vacancy(parts, name, path) {
                self.lemma_make_in(dir, name, kind);
                if let Ok(id) = r {
                    let node = img.inodes[id as int];
                    self.lemma_added_leads(img, dir, name, id, parts);
                    assert(img.pointer_fields(node) == node.direct);
                    lemma_live_null(node.direct);
                    img.lemma_empty_bytes(id);
                    img.lemma_empty_covers_none(node);
                    assert(img.entries(node)->Ok_0 =~= Seq::empty());
                    assert(img.listing(Seq::empty()) =~= Seq::empty());
                    assert(parts.push(name).drop_last() =~= parts);
                }
            }
        }
    }

    /// Making an entry adds its name and no other, and a failure adds none.
    pub proof fn lemma_made_names(
        self,
        path: Seq<char>,
        kind: FileKind,
        at_root: ErrorView,
        q: Seq<char>,
    )
        requires
            self.sound(),
        ensures
            ({
                let (img, r) = self.make(path, kind, at_root);
                match r {
                    Ok(id) => {
                        &&& self.lookup(q) matches Ok(x) ==> img.lookup(q) == Ok::<u32, ErrorView>(
                            x,
                        ) && x != id
                        &&& img.lookup(q) matches Ok(x) ==> x != id ==> self.lookup(q) == Ok::<
                            u32,
                            ErrorView,
                        >(x)
                    },
                    Err(_) => img.lookup(q) == self.lookup(q),
                }
            }),
    {
        self.lemma_make(path, kind, at_root);
        let (img, r) = self.make(path, kind, at_root);
        if let Ok(Some((parts, name))) = split_last(path) {
            if encode_utf8(name).len() > MAX_NAME_LEN {
            } else if let Ok(dir) = self.vacancy(parts, name, path) {
                self.lemma_make_in(dir, name, kind);
                if let Ok(all) = split(q) {
                    if let Ok(id) = r {
                        self.lemma_added_resolve(img, dir as int, name, id, all);
                    } else {
                        self.lemma_same_places_resolve(img, all);
                    }
                }
            }
        }
    }

    /// Making an entry, successful or not, changes nothing that is in use but
    /// the parent directory.
    proof fn lemma_made_elsewhere(
        self,
        path: Seq<char>,
        kind: FileKind,
        at_root: ErrorView,
        q: Seq<char>,
    )
        requires
            self.sound(),
            self.lookup(q) is Ok,
            split_last(path) matches Ok(Some((parts, _))) ==> self.lookup(q) != self.resolve(parts),
        ensures
            ({
                let img = self.make(path, kind, at_root).0;
                &&& img.read(q) == self.read(q)
                &&& img.stat(q) == self.stat(q)
                &&& img.readdir(q) == self.readdir(q)
            }),
    {
        self.lemma_make(path, kind, at_root);
        self.lemma_made_names(path, kind, at_root, q);
        let img = self.make(path, kind, at_root).0;
        let x: u32 = self.lookup(q)->Ok_0;
        self.lemma_resolve_allocated(split(q)->Ok_0);
        if let Ok(Some((parts, name))) = split_last(path) {
            if encode_utf8(name).len() > MAX_NAME_LEN {
            } else if let Ok(dir) = self.vacancy(parts, name, path) {
                self.lemma_make_in(dir, name, kind);
                assert(self.inodes[x as int].allocated);
                assert(self.keeps(img, x as int));
                self.lemma_keeps(img, x as int);
                self.lemma_keeps_bytes(img, x);
                if self.kind(x) == FileKind::Directory {
                    self.lemma_keeps_entries(img, x as int);
                    self.lemma_sound_in_range();
                    self.lemma_found_in_range(x, Seq::empty());
                    if let Ok(es) = self.entries(self.inodes[x as int]) {
                        self.lemma_entries_targets(x as int);
                        assert forall|i: int|
                            0 <= i < es.len() && (#[trigger] es[i]).used implies img.kind(
                            es[i].inode,
                        ) == self.kind(es[i].inode) by {
                            let y = es[i].inode as int;
                            assert(self.inodes[y].allocated);
                            if y == dir {
                                if self.make(path, kind, at_root).1 is Ok {
                                    assert(self.keeps_kinds(img));
                                }
                            } else {
                                assert(self.keeps(img, y));
                            }
                        }
                        self.lemma_listing_same(img, es);
                    }
                }
            }
        }
    }

    /// The entries in use that were read name inodes in use.
    pub proof fn lemma_entries_targets(self, d: int)
        requires
            self.sound(),
            self.is_dir(d),
            self.entries(self.inodes[d]) is Ok,
        ensures
            ({
                let es = self.entries(self.inodes[d])->Ok_0;
                forall|i: int|
                    0 <= i < es.len() && (#[trigger] es[i]).used ==> {
                        &&& 0 < es[i].inode < INODE_COUNT
                        &&& self.inodes[es[i].inode as int].allocated
                        &&& exists|k: int, j: int|
                            #[trigger] self.links(d, k, j) && self.entry_at(d, k, j) == Ok::<
                                EntryView,
                                ErrorView,
                            >(es[i])
                    }
            }),
    {
        let node = self.inodes[d];
        let n = self.covered(node);
        let slots = self.slots();
        let es = self.entries(node)->Ok_0;
        self.lemma_covered_nonnegative(node);
        self.lemma_scan_places(d, n);
        assert forall|p: int| 0 <= p < es.len() && (#[trigger] es[p]).used implies {
            &&& 0 < es[p].inode < INODE_COUNT
            &&& self.inodes[es[p].inode as int].allocated
            &&& exists|k: int, j: int|
                #[trigger] self.links(d, k, j) && self.entry_at(d, k, j) == Ok::<
                    EntryView,
                    ErrorView,
                >(es[p])
        } by {
            let k = p / slots;
            let j = p % slots;
            assert(slots > 0) by (nonlinear_arith)
                requires
                    0 <= p < n * slots,
                    0 <= slots,
            ;
            vstd::arithmetic::div_mod::lemma_fundamental_div_mod(p, slots);
            vstd::arithmetic::mul::lemma_mul_is_commutative(k, slots);
            assert(0 <= k < n) by (nonlinear_arith)
                requires
                    p == k * slots + j,
                    0 <= j < slots,
                    0 <= p < n * slots,
            ;
            assert(self.entry_at(d, k, j) == Ok::<EntryView, ErrorView>(es[p]));
            assert(self.links(d, k, j));
        }
    }
}

impl ImageView {
    /// The listing item of the entry `e`.
    pub open spec fn item(self, e: EntryView) -> ItemView {
        ItemView { name: e.name, inode: e.inode, kind: self.kind(e.inode) }
    }

    /// A listing holds the items of the entries in use.
    pub proof fn lemma_listing_items(self, es: Seq<EntryView>, item: ItemView)
        ensures
            self.listing(es).contains(item) <==> exists|i: int|
                0 <= i < es.len() && (#[trigger] es[i]).used && self.item(es[i]) == item,
        decreases es.len(),
    {
        let all = self.listing(es);
        if es.len() > 0 {
            let head = es.drop_last();
            let before = self.listing(head);
            self.lemma_listing_items(head, item);
            if before.contains(item) {
                let i = choose|i: int|
                    0 <= i < head.len() && (#[trigger] head[i]).used && self.item(head[i]) == item;
                assert(es[i].used && self.item(es[i]) == item);
                let p = before.index_of(item);
                assert(all[p] == item);
            }
            if es.last().used && self.item(es.last()) == item {
                assert(all[all.len() - 1] == item);
                assert(es[es.len() - 1].used);
            }
            if all.contains(item) && !before.contains(item) {
                let p = all.index_of(item);
                if p < before.len() {
                    assert(before[p] == item);
                }
                assert(es[es.len() - 1].used && self.item(es[es.len() - 1]) == item);
            }
            if exists|i: int|
                0 <= i < es.len() && (#[trigger] es[i]).used && self.item(es[i]) == item {
                let i = choose|i: int|
                    0 <= i < es.len() && (#[trigger] es[i]).used && self.item(es[i]) == item;
                if i < head.len() {
                    assert(head[i].used && self.item(head[i]) == item);
                }
            }
        }
    }

    /// The listing of a directory holds the items of its entries in use.
    pub proof fn lemma_list_items(self, d: u32, item: ItemView)
        requires
            self.sound(),
            self.is_dir(d as int),
            self.entries(self.inodes[d as int]) is Ok,
        ensures
            self.list(d)->Ok_0.contains(item) <==> exists|k: int, j: int|
                #[trigger] self.links(d as int, k, j) && self.item(
                    self.entry_at(d as int, k, j)->Ok_0,
                ) == item,
    {
        let es = self.entries(self.inodes[d as int])->Ok_0;
        self.lemma_listing_items(es, item);
        self.lemma_entries_targets(d as int);
        self.lemma_covered_nonnegative(self.inodes[d as int]);
        self.lemma_scan_places(d as int, self.covered(self.inodes[d as int]));
        if self.list(d)->Ok_0.contains(item) {
            let i = choose|i: int|
                0 <= i < es.len() && (#[trigger] es[i]).used && self.item(es[i]) == item;
            let (k, j) = choose|k: int, j: int|
                #[trigger] self.links(d as int, k, j) && self.entry_at(d as int, k, j) == Ok::<
                    EntryView,
                    ErrorView,
                >(es[i]);
            assert(self.links(d as int, k, j));
        }
        if exists|k: int, j: int|
            #[trigger] self.links(d as int, k, j) && self.item(
                self.entry_at(d as int, k, j)->Ok_0,
            ) == item {
            let (k, j) = choose|k: int, j: int|
                #[trigger] self.links(d as int, k, j) && self.item(
                    self.entry_at(d as int, k, j)->Ok_0,
                ) == item;
            let p = k * self.slots() + j;
            assert(self.entry_at(d as int, k, j) == Ok::<EntryView, ErrorView>(es[p]));
            assert(es[p].used && self.item(es[p]) == item);
        }
    }

    /// The parent lists one item more than before: the new one.
    proof fn lemma_made_listed(
        self,
        path: Seq<char>,
        kind: FileKind,
        at_root: ErrorView,
        parent: Seq<char>,
        item: ItemView,
    )
        requires
            self.sound(),
            split_last(path) matches Ok(Some((parts, _))) && self.lookup(parent) == self.resolve(
                parts,
            ),
            self.make(path, kind, at_root).1 is Ok,
        ensures
            ({
                let (img, r) = self.make(path, kind, at_root);
                let new = ItemView {
                    name: split_last(path)->Ok_0->Some_0.1,
                    inode: r->Ok_0,
                    kind,
                };
                &&& self.readdir(parent) is Ok
                &&& img.readdir(parent) is Ok
                &&& img.readdir(parent)->Ok_0.contains(item) <==> self.readdir(
                    parent,
                )->Ok_0.contains(item) || item == new
            }),
    {
        self.lemma_make(path, kind, at_root);
        self.lemma_made_names(path, kind, at_root, parent);
        let (img, r) = self.make(path, kind, at_root);
        let (parts, name) = split_last(path)->Ok_0->Some_0;
        let dir: u32 = self.vacancy(parts, name, path)->Ok_0;
        let d = dir as int;
        let id: u32 = r->Ok_0;
        self.lemma_make_in(dir, name, kind);
        let new = ItemView { name, inode: id, kind };
        assert(self.is_dir(d));
        assert(self.inodes[d].allocated);
        self.lemma_list_items(dir, item);
        img.lemma_list_items(dir, item);
        if self.list(dir)->Ok_0.contains(item) {
            let (k, j) = choose|k: int, j: int|
                #[trigger] self.links(d, k, j) && self.item(self.entry_at(d, k, j)->Ok_0) == item;
            assert(img.links(d, k, j));
            assert(self.inodes[self.target(d, k, j) as int].allocated);
            assert(img.item(img.entry_at(d, k, j)->Ok_0) == item);
        }
        if item == new {
            let (k, j) = choose|k: int, j: int|
                #[trigger] img.links(d, k, j) && img.label(d, k, j) == name && img.target(d, k, j)
                    == id;
            assert(img.links(d, k, j));
            assert(img.item(img.entry_at(d, k, j)->Ok_0) == item);
        }
        if img.list(dir)->Ok_0.contains(item) {
            let (k, j) = choose|k: int, j: int|
                #[trigger] img.links(d, k, j) && img.item(img.entry_at(d, k, j)->Ok_0) == item;
            assert(img.links(d, k, j));
            if img.target(d, k, j) != id {
                assert(self.links(d, k, j));
                assert(self.inodes[self.target(d, k, j) as int].allocated);
                assert(self.item(self.entry_at(d, k, j)->Ok_0) == item);
            } else if self.links(d, k, j) {
                assert(self.inodes[self.target(d, k, j) as int].allocated);
            }
        }
    }

    /// Making an entry keeps a healthy image healthy.
    proof fn lemma_made_healthy(self, path: Seq<char>, kind: FileKind, at_root: ErrorView)
        requires
            self.healthy(),
            self.make(path, kind, at_root).1 is Ok,
        ensures
            self.make(path, kind, at_root).0.healthy(),
    {
        self.lemma_make(path, kind, at_root);
        let (img, r) = self.make(path, kind, at_root);
        let (parts, name) = split_last(path)->Ok_0->Some_0;
        let dir: u32 = self.vacancy(parts, name, path)->Ok_0;
        let id: u32 = r->Ok_0;
        self.lemma_make_in(dir, name, kind);
        self.lemma_added_leads(img, dir, name, id, parts);
        assert forall|i: int|
            0 <= i < img.inodes.len() && (#[trigger] img.inodes[i]).allocated implies img.reachable(
            i,
        ) by {
            if i == id {
                assert(img.leads_to(parts.push(name), i));
            } else {
                assert(self.inodes[i].allocated);
                let way = choose|way: Seq<Seq<char>>| #[trigger] self.leads_to(way, i);
                self.lemma_added_resolve(img, dir as int, name, id, way);
                assert(img.leads_to(way, i));
            }
        }
    }
}

/// A file that was created is there: its path names it, it is empty, it was
/// not there before, and it has the first inode that was free.
pub proof fn law_create_found(img: ImageView, path: Seq<char>)
    requires
        img.sound(),
        img.create(path).1 is Ok,
    ensures
        ({
            let (after, r) = img.create(path);
            let node = r->Ok_0;
            &&& img.lookup(path) is Err
            &&& node == fresh_inode(node.id, FileKind::File)
            &&& node.id == first_clear(img.in_use())
            &&& after.lookup(path) == Ok::<u32, ErrorView>(node.id)
            &&& after.read(path) == Ok::<Seq<u8>, ErrorView>(Seq::empty())
            &&& after.stat(path) == Ok::<StatView, ErrorView>(
                StatView {
                    inode: node.id,
                    kind: FileKind::File,
                    size: 0,
                    link_count: 1,
                    blocks: 0,
                },
            )
        }),
{
    img.lemma_made(path, FileKind::File, ErrorView::InvalidPath(path));
}

/// A directory that was created is there: its path names it, it is empty, it
/// was not there before, and it has the last inode that was free.
pub proof fn law_mkdir_found(img: ImageView, path: Seq<char>)
    requires
        img.sound(),
        img.mkdir(path).1 is Ok,
    ensures
        ({
            let after = img.mkdir(path).0;
            &&& img.lookup(path) is Err
            &&& after.readdir(path) == Ok::<Seq<ItemView>, ErrorView>(Seq::empty())
            &&& after.lookup(path) is Ok
            &&& after.lookup(path)->Ok_0 == last_clear_below(
                img.in_use(),
                img.inodes.len() as int,
            )
            &&& after.stat(path) == Ok::<StatView, ErrorView>(
                StatView {
                    inode: after.lookup(path)->Ok_0,
                    kind: FileKind::Directory,
                    size: 0,
                    link_count: 1,
                    blocks: 0,
                },
            )
        }),
{
    img.lemma_made(path, FileKind::Directory, ErrorView::AlreadyExists("/"@));
}

/// Creating a file adds its name and no other: every other path names what it
/// named before. A failure adds none.
pub proof fn law_create_keeps_names(img: ImageView, path: Seq<char>, q: Seq<char>, x: u32)
    requires
        img.sound(),
    ensures
        ({
            let (after, r) = img.create(path);
            match r {
                Ok(node) => img.lookup(q) == Ok::<u32, ErrorView>(x) <==> after.lookup(q) == Ok::<
                    u32,
                    ErrorView,
                >(x) && x != node.id,
                Err(_) => after.lookup(q) == img.lookup(q),
            }
        }),
{
    img.lemma_made(path, FileKind::File, ErrorView::InvalidPath(path));
    img.lemma_made_names(path, FileKind::File, ErrorView::InvalidPath(path), q);
}

/// Creating a directory adds its name and no other: every other path names
/// what it named before. A failure adds none.
pub proof fn law_mkdir_keeps_names(img: ImageView, path: Seq<char>, q: Seq<char>, x: u32)
    requires
        img.sound(),
    ensures
        ({
            let (after, r) = img.mkdir(path);
            match r {
                Ok(_) => img.lookup(q) == Ok::<u32, ErrorView>(x) <==> after.lookup(q) == Ok::<
                    u32,
                    ErrorView,
                >(x) && after.lookup(path) != Ok::<u32, ErrorView>(x),
                Err(_) => after.lookup(q) == img.lookup(q),
            }
        }),
{
    img.lemma_made(path, FileKind::Directory, ErrorView::AlreadyExists("/"@));
    img.lemma_made_names(path, FileKind::Directory, ErrorView::AlreadyExists("/"@), q);
}

/// Making an entry, successful or not, changes nothing that was there but the
/// parent directory: what any other path reads, shows or lists stays the same.
pub proof fn law_make_keeps_others(img: ImageView, path: Seq<char>, q: Seq<char>)
    requires
        img.sound(),
        img.lookup(q) is Ok,
        split_last(path) matches Ok(Some((parts, _))) ==> img.lookup(q) != img.resolve(parts),
    ensures
        img.create(path).0.read(q) == img.read(q),
        img.create(path).0.stat(q) == img.stat(q),
        img.create(path).0.readdir(q) == img.readdir(q),
        img.mkdir(path).0.read(q) == img.read(q),
        img.mkdir(path).0.stat(q) == img.stat(q),
        img.mkdir(path).0.readdir(q) == img.readdir(q),
{
    img.lemma_made_elsewhere(path, FileKind::File, ErrorView::InvalidPath(path), q);
    img.lemma_made_elsewhere(path, FileKind::Directory, ErrorView::AlreadyExists("/"@), q);
}

/// The parent of a created file lists the new item beside those that it listed
/// before, and nothing else.
pub proof fn law_create_listed(
    img: ImageView,
    path: Seq<char>,
    parent: Seq<char>,
    item: ItemView,
)
    requires
        img.sound(),
        split_last(path) matches Ok(Some((parts, _))) && img.lookup(parent) == img.resolve(parts),
        img.create(path).1 is Ok,
    ensures
        ({
            let (after, r) = img.create(path);
            let new = ItemView {
                name: split_last(path)->Ok_0->Some_0.1,
                inode: r->Ok_0.id,
                kind: FileKind::File,
            };
            &&& img.readdir(parent) is Ok
            &&& after.readdir(parent) is Ok
            &&& after.readdir(parent)->Ok_0.contains(item) <==> img.readdir(
                parent,
            )->Ok_0.contains(item) || item == new
        }),
{
    img.lemma_made(path, FileKind::File, ErrorView::InvalidPath(path));
    img.lemma_made_listed(path, FileKind::File, ErrorView::InvalidPath(path), parent, item);
}

/// The parent of a created directory lists the new item beside those that it
/// listed before, and nothing else.
pub proof fn law_mkdir_listed(
    img: ImageView,
    path: Seq<char>,
    parent: Seq<char>,
    item: ItemView,
)
    requires
        img.sound(),
        split_last(path) matches Ok(Some((parts, _))) && img.lookup(parent) == img.resolve(parts),
        img.mkdir(path).1 is Ok,
    ensures
        ({
            let after = img.mkdir(path).0;
            let new = ItemView {
                name: split_last(path)->Ok_0->Some_0.1,
                inode: after.lookup(path)->Ok_0,
                kind: FileKind::Directory,
            };
            &&& img.readdir(parent) is Ok
            &&& after.readdir(parent) is Ok
            &&& after.readdir(parent)->Ok_0.contains(item) <==> img.readdir(
                parent,
            )->Ok_0.contains(item) || item == new
        }),
{
    img.lemma_made(path, FileKind::Directory, ErrorView::AlreadyExists("/"@));
    img.lemma_made_listed(
        path,
        FileKind::Directory,
        ErrorView::AlreadyExists("/"@),
        parent,
        item,
    );
}

/// The name of an entry fits the entry.
proof fn lemma_decoded_name(s: Seq<u8>)
    ensures
        decode_entry(s) matches Ok(e) ==> encode_utf8(e.name).len() <= MAX_NAME_LEN,
{
    if decode_entry(s) is Ok {
        vstd::utf8::decode_utf8_encode_utf8(s.subrange(8, 8 + s[5]));
    }
}

/// The names of the entries of a block fit their entries.
proof fn lemma_block_names(data: Seq<u8>, n: int)
    ensures
        block_entries(data, n) matches Ok(es) ==> forall|i: int|
            0 <= i < es.len() ==> encode_utf8((#[trigger] es[i]).name).len() <= MAX_NAME_LEN,
    decreases n,
{
    if n > 0 {
        lemma_block_names(data, n - 1);
        lemma_decoded_name(slot(data, n - 1));
    }
}

impl ImageView {
    /// The names of the entries of a directory fit their entries.
    proof fn lemma_scan_names(self, node: InodeView, k: int)
        ensures
            self.scan(node, k) matches Ok(es) ==> forall|i: int|
                0 <= i < es.len() ==> encode_utf8((#[trigger] es[i]).name).len() <= MAX_NAME_LEN,
        decreases k,
    {
        if k > 0 {
            self.lemma_scan_names(node, k - 1);
            lemma_block_names(self.blocks[self.pointer(node, k - 1) as int], self.slots());
        }
    }
}

/// A name of more bytes than a directory entry holds is refused where it would
/// be made, and the image stays as it is.
pub proof fn law_long_name_refused(img: ImageView, path: Seq<char>)
    requires
        split_last(path) matches Ok(Some((_, name))) && encode_utf8(name).len() > MAX_NAME_LEN,
    ensures
        ({
            let (parts, name) = split_last(path)->Ok_0->Some_0;
            let e = match img.vacancy(parts, name, path) {
                Ok(_) => ErrorView::InvalidPath(path),
                Err(e) => e,
            };
            &&& img.create(path) == (img, Err::<InodeView, ErrorView>(e))
            &&& img.mkdir(path) == (img, Err::<(), ErrorView>(e))
        }),
        img.lookup(path) is Err,
{
    let (parts, name) = split_last(path)->Ok_0->Some_0;
    if let Ok(dir) = img.resolve(parts) {
        let node = img.inodes[dir as int];
        img.lemma_scan_names(node, img.covered(node));
        if let Ok(es) = img.entries(node) {
            lemma_first_named(es, name, 0);
        }
    }
}

/// Where no entry fits a block, nothing is made: the attempt is refused, and
/// the image stays as it is.
pub proof fn law_small_blocks_refuse(img: ImageView, path: Seq<char>)
    requires
        img.bs() < DIR_ENTRY_SIZE,
    ensures
        img.create(path).0 == img,
        img.create(path).1 is Err,
        img.mkdir(path).0 == img,
        img.mkdir(path).1 is Err,
        split_last(path) matches Ok(Some((parts, name))) && encode_utf8(name).len()
            <= MAX_NAME_LEN && img.vacancy(parts, name, path) is Ok ==> ({
            let d = img.resolve(split_last(path)->Ok_0->Some_0.0)->Ok_0 as int;
            let full = forall|i: int|
                0 <= i < img.inodes.len() ==> (#[trigger] img.inodes[i]).allocated;
            let e = if full {
                ErrorView::OutOfInodes
            } else if img.covered(img.inodes[d]) >= DIRECT_POINTERS + img.words() {
                ErrorView::FileTooLarge
            } else {
                ErrorView::OutOfSpace
            };
            &&& img.create(path).1 == Err::<InodeView, ErrorView>(e)
            &&& img.mkdir(path).1 == Err::<(), ErrorView>(e)
        }),
{
    img.lemma_vacant(FileKind::File);
    img.lemma_vacant(FileKind::Directory);
}

/// What exists is not made again: the attempt says so and changes nothing.
pub proof fn law_make_twice(img: ImageView, path: Seq<char>)
    requires
        img.lookup(path) is Ok,
        split_last(path) matches Ok(Some(_)),
    ensures
        img.create(path) == (img, Err::<InodeView, ErrorView>(ErrorView::AlreadyExists(path))),
        img.mkdir(path) == (img, Err::<(), ErrorView>(ErrorView::AlreadyExists(path))),
{
}

/// An entry that cannot be made for another reason than want of space leaves
/// the image as it was.
pub proof fn law_failed_make_unchanged(img: ImageView, path: Seq<char>)
    requires
        img.sound(),
    ensures
        img.create(path).1 matches Err(e) ==> e != ErrorView::OutOfSpace && e
            != ErrorView::FileTooLarge ==> img.create(path).0 == img,
        img.mkdir(path).1 matches Err(e) ==> e != ErrorView::OutOfSpace && e
            != ErrorView::FileTooLarge ==> img.mkdir(path).0 == img,
{
    img.lemma_make(path, FileKind::File, ErrorView::InvalidPath(path));
    img.lemma_make(path, FileKind::Directory, ErrorView::AlreadyExists("/"@));
    if let Ok(Some((parts, name))) = split_last(path) {
        if encode_utf8(name).len() > MAX_NAME_LEN {
        } else if let Ok(dir) = img.vacancy(parts, name, path) {
            img.lemma_make_in(dir, name, FileKind::File);
            img.lemma_make_in(dir, name, FileKind::Directory);
        }
    }
}

/// Making an entry, successful or not, keeps the tables in agreement.
pub proof fn law_make_sound(img: ImageView, path: Seq<char>)
    requires
        img.sound(),
    ensures
        img.create(path).0.sound(),
        img.mkdir(path).0.sound(),
{
    img.lemma_made(path, FileKind::File, ErrorView::InvalidPath(path));
    img.lemma_made(path, FileKind::Directory, ErrorView::AlreadyExists("/"@));
}

/// Making an entry keeps a healthy image healthy.
pub proof fn law_make_healthy(img: ImageView, path: Seq<char>)
    requires
        img.healthy(),
    ensures
        img.create(path).1 is Ok ==> img.create(path).0.healthy(),
        img.mkdir(path).1 is Ok ==> img.mkdir(path).0.healthy(),
{
    if img.create(path).1 is Ok {
        img.lemma_made_healthy(path, FileKind::File, ErrorView::InvalidPath(path));
    }
    if img.mkdir(path).1 is Ok {
        img.lemma_made_healthy(path, FileKind::Directory, ErrorView::AlreadyExists("/"@));
    }
}

} // verus!
