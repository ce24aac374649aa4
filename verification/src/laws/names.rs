//! Names: how the entries of directories decide what a path leads to.

use vstd::prelude::*;
use crate::error::{ErrorView, Outcome};
use crate::inode::{FileKind, NULL_BLOCK};
use crate::model::dir::{block_entries, search_block, slot};
use crate::model::entry::{decode_entry, EntryView};
use crate::model::image::ImageView;

verus! {

/// What a search of a block finds.
proof fn lemma_search_block(data: Seq<u8>, n: int, wanted: spec_fn(EntryView) -> bool)
    requires
        n >= 0,
    ensures
        match search_block(data, n, wanted) {
            Ok(Some(j)) => 0 <= j < n && (decode_entry(slot(data, j)) matches Ok(e) && wanted(e)),
            Ok(None) => forall|j: int|
                0 <= j < n ==> (#[trigger] decode_entry(slot(data, j)) matches Ok(e) && !wanted(
                    e,
                )),
            Err(_) => exists|j: int| 0 <= j < n && #[trigger] decode_entry(slot(data, j)) is Err,
        },
    decreases n,
{
    if n > 0 {
        lemma_search_block(data, n - 1, wanted);
        let last = decode_entry(slot(data, n - 1));
    }
}

/// The entries of a block depend on what its slots decode to alone.
proof fn lemma_block_entries_same(data: Seq<u8>, other: Seq<u8>, n: int)
    requires
        forall|j: int|
            0 <= j < n ==> #[trigger] decode_entry(slot(data, j)) == decode_entry(slot(other, j)),
    ensures
        block_entries(data, n) == block_entries(other, n),
    decreases n,
{
    if n > 0 {
        lemma_block_entries_same(data, other, n - 1);
        assert(decode_entry(slot(data, n - 1)) == decode_entry(slot(other, n - 1)));
    }
}

impl ImageView {
    /// What it means that a search of the first `n` blocks of the directory `d`
    /// ended with `found`.
    pub open spec fn search_means(
        self,
        d: int,
        n: int,
        wanted: spec_fn(EntryView) -> bool,
        found: Outcome<Option<(u32, int)>>,
    ) -> bool {
        match found {
            Ok(Some((b, j))) => exists|k: int|
                {
                    &&& 0 <= k < n
                    &&& self.pointer(self.inodes[d], k) == b
                    &&& 0 <= j < self.slots()
                    &&& (#[trigger] self.entry_at(d, k, j) matches Ok(e) && wanted(e))
                },
            Ok(None) => forall|k: int, j: int|
                0 <= k < n && 0 <= j < self.slots() ==> (#[trigger] self.entry_at(
                    d,
                    k,
                    j,
                ) matches Ok(e) && !wanted(e)),
            Err(_) => exists|k: int, j: int|
                0 <= k < n && 0 <= j < self.slots() && #[trigger] self.entry_at(d, k, j) is Err,
        }
    }

    /// What a search of a directory finds.
    pub proof fn lemma_search(self, d: int, n: int, wanted: spec_fn(EntryView) -> bool)
        requires
            self.sound(),
            self.is_dir(d),
            0 <= n <= self.covered(self.inodes[d]),
        ensures
            self.search_means(d, n, wanted, self.search(self.inodes[d], n, wanted)),
        decreases n,
    {
        if n > 0 {
            let node = self.inodes[d];
            self.lemma_search(d, n - 1, wanted);
            assert(self.node_sound(d));
            assert(self.pointer(node, n - 1) != NULL_BLOCK);
            let b = self.pointer(node, n - 1);
            let data = self.blocks[b as int];
            lemma_search_block(data, self.slots(), wanted);
            match self.search(node, n - 1, wanted) {
                Ok(None) => match search_block(data, self.slots(), wanted) {
                    Ok(Some(j)) => {
                        assert(self.entry_at(d, n - 1, j) == decode_entry(slot(data, j)));
                        assert(self.search(node, n, wanted) == Ok::<Option<(u32, int)>, ErrorView>(
                            Some((b, j)),
                        ));
                        assert(self.search_means(d, n, wanted, self.search(node, n, wanted)));
                    },
                    Ok(None) => {
                        assert forall|k: int, j: int|
                            0 <= k < n && 0 <= j < self.slots() implies (#[trigger] self.entry_at(
                            d,
                            k,
                            j,
                        ) matches Ok(e) && !wanted(e)) by {
                            if k == n - 1 {
                                assert(self.entry_at(d, k, j) == decode_entry(slot(data, j)));
                            }
                        }
                    },
                    Err(_) => {
                        let j = choose|j: int|
                            0 <= j < self.slots() && #[trigger] decode_entry(slot(data, j)) is Err;
                        assert(self.entry_at(d, n - 1, j) == decode_entry(slot(data, j)));
                    },
                },
                Ok(Some((b2, j))) => {
                    let k = choose|k: int|
                        {
                            &&& 0 <= k < n - 1
                            &&& self.pointer(node, k) == b2
                            &&& 0 <= j < self.slots()
                            &&& (#[trigger] self.entry_at(d, k, j) matches Ok(e) && wanted(e))
                        };
                    assert(self.entry_at(d, k, j) is Ok);
                    assert(self.search(node, n, wanted) == Ok::<Option<(u32, int)>, ErrorView>(
                        Some((b2, j)),
                    ));
                    assert(self.search_means(d, n, wanted, self.search(node, n, wanted)));
                },
                Err(_) => {
                    let (k, j) = choose|k: int, j: int|
                        0 <= k < n - 1 && 0 <= j < self.slots() && #[trigger] self.entry_at(
                            d,
                            k,
                            j,
                        ) is Err;
                    assert(self.entry_at(d, k, j) is Err);
                },
            }
        }
    }

    /// A directory that was read has entries that can all be read.
    pub proof fn lemma_entries_places(self, d: int)
        requires
            self.sound(),
            self.is_dir(d),
            self.entries(self.inodes[d]) is Ok,
        ensures
            forall|k: int, j: int|
                self.is_slot(d, k, j) ==> #[trigger] self.entry_at(d, k, j) is Ok,
    {
        self.lemma_covered_nonnegative(self.inodes[d]);
        self.lemma_scan_places(d, self.covered(self.inodes[d]));
    }

    /// Directories with the same entries at the same places are read as before.
    proof fn lemma_same_places_scan(self, img: ImageView, d: int, n: int)
        requires
            self.sound(),
            self.is_dir(d),
            self.slots() > 0,
            self.same_places(img),
            img.node_sound(d),
            0 <= n <= self.covered(self.inodes[d]),
        ensures
            img.scan(img.inodes[d], n) == self.scan(self.inodes[d], n),
        decreases n,
    {
        if n > 0 {
            self.lemma_same_places_scan(img, d, n - 1);
            assert(self.node_sound(d));
            assert(self.inodes[d].allocated);
            let node = self.inodes[d];
            let k = n - 1;
            assert(self.is_slot(d, k, 0));
            assert(img.is_slot(d, k, 0));
            assert(self.pointer(node, k) != NULL_BLOCK);
            assert(img.pointer(img.inodes[d], k) != NULL_BLOCK);
            let data = self.blocks[self.pointer(node, k) as int];
            let other = img.blocks[img.pointer(img.inodes[d], k) as int];
            assert forall|j: int| 0 <= j < self.slots() implies #[trigger] decode_entry(
                slot(data, j),
            ) == decode_entry(slot(other, j)) by {
                assert(self.is_slot(d, k, j));
                assert(img.entry_at(d, k, j) == self.entry_at(d, k, j));
            }
            lemma_block_entries_same(data, other, self.slots());
        }
    }

    /// Where no entry fits a block, a directory has no entries.
    proof fn lemma_no_slots(self, d: int)
        requires
            self.bs() > 0,
            self.slots() == 0,
            self.is_dir(d),
            self.node_sound(d),
        ensures
            self.entries(self.inodes[d]) == Ok::<Seq<EntryView>, ErrorView>(Seq::empty()),
    {
        let n = self.covered(self.inodes[d]);
        self.lemma_covered_nonnegative(self.inodes[d]);
        self.lemma_scan_ok(d, n);
        self.lemma_scan_places(d, n);
        assert(n * self.slots() == 0) by (nonlinear_arith)
            requires
                self.slots() == 0,
        ;
        assert(self.entries(self.inodes[d])->Ok_0 =~= Seq::empty());
    }

    /// Directories with the same entries at the same places have the same
    /// entries.
    pub proof fn lemma_same_places_entries(self, img: ImageView, d: int)
        requires
            self.sound(),
            self.is_dir(d),
            self.same_places(img),
            img.node_sound(d),
        ensures
            img.entries(img.inodes[d]) == self.entries(self.inodes[d]),
    {
        let n = self.covered(self.inodes[d]);
        let m = img.covered(img.inodes[d]);
        assert(self.inodes[d].allocated);
        self.lemma_covered_nonnegative(self.inodes[d]);
        img.lemma_covered_nonnegative(img.inodes[d]);
        if self.slots() == 0 {
            assert(self.node_sound(d));
            self.lemma_no_slots(d);
            img.lemma_no_slots(d);
        } else {
            if m > n {
                assert(img.is_slot(d, n, 0));
                assert(self.is_slot(d, n, 0));
            }
            if m < n {
                assert(self.is_slot(d, m, 0));
                assert(img.is_slot(d, m, 0));
            }
            self.lemma_same_places_scan(img, d, n);
        }
    }

    /// Where the directories have the same entries, names lead where they led.
    pub proof fn lemma_same_places_resolve(self, img: ImageView, parts: Seq<Seq<char>>)
        requires
            self.sound(),
            self.same_places(img),
            forall|i: int| 0 <= i < img.inodes.len() ==> #[trigger] img.node_sound(i),
        ensures
            img.resolve(parts) == self.resolve(parts),
        decreases parts.len(),
    {
        if parts.len() > 0 {
            self.lemma_same_places_resolve(img, parts.drop_last());
            self.lemma_resolve_allocated(parts.drop_last());
            if let Ok(d) = self.resolve(parts.drop_last()) {
                assert(self.inodes[d as int].allocated);
                if self.kind(d) == FileKind::Directory {
                    assert(img.node_sound(d as int));
                    self.lemma_same_places_entries(img, d as int);
                }
            }
        }
    }

    /// `img` has one inode more, `id`, and one name more: `name` for it in the
    /// directory `d`. The new inode holds no entries.
    pub open spec fn added(self, img: ImageView, d: int, name: Seq<char>, id: u32) -> bool {
        &&& self.keeps_kinds(img)
        &&& self.is_dir(d)
        &&& id < self.inodes.len()
        &&& !self.inodes[id as int].allocated
        &&& img.inodes[id as int].allocated
        &&& forall|i: int|
            0 <= i < img.inodes.len() && i != id && (#[trigger] img.inodes[i]).allocated
                ==> self.inodes[i].allocated
        &&& forall|d2: int, k: int, j: int| #[trigger]
            self.links(d2, k, j) ==> img.links(d2, k, j) && img.entry_at(d2, k, j)
                == self.entry_at(d2, k, j)
        &&& forall|d2: int, k: int, j: int| #[trigger]
            img.links(d2, k, j) ==> {
                ||| self.links(d2, k, j) && img.entry_at(d2, k, j) == self.entry_at(d2, k, j)
                ||| d2 == d && img.label(d2, k, j) == name && img.target(d2, k, j) == id
            }
        &&& exists|k: int, j: int|
            #[trigger] img.links(d, k, j) && img.label(d, k, j) == name && img.target(d, k, j)
                == id
        &&& forall|k: int, j: int| !#[trigger] img.links(id as int, k, j)
        &&& forall|d2: int| #[trigger]
            self.is_dir(d2) ==> (img.entries(img.inodes[d2]) is Ok <==> self.entries(
                self.inodes[d2],
            ) is Ok)
        &&& self.entries(self.inodes[d]) is Ok
    }

    /// One name more is one name more: what names led to before, they lead to
    /// still, and nothing else is led to but the new inode.
    pub proof fn lemma_added_resolve(
        self,
        img: ImageView,
        d: int,
        name: Seq<char>,
        id: u32,
        parts: Seq<Seq<char>>,
    )
        requires
            self.sound(),
            img.sound(),
            self.added(img, d, name, id),
        ensures
            self.resolve(parts) matches Ok(x) ==> img.resolve(parts) == Ok::<u32, ErrorView>(x)
                && x != id,
            img.resolve(parts) matches Ok(x) ==> x != id ==> self.resolve(parts) == Ok::<
                u32,
                ErrorView,
            >(x),
        decreases parts.len(),
    {
        if parts.len() == 0 {
            assert(self.inodes[0].allocated);
        } else {
            let head = parts.drop_last();
            let last = parts.last();
            self.lemma_added_resolve(img, d, name, id, head);
            self.lemma_resolve_allocated(head);
            img.lemma_resolve_allocated(head);
            self.lemma_resolve_allocated(parts);
            if let Ok(d2) = self.resolve(head) {
                assert(self.inodes[d2 as int].allocated);
                if self.kind(d2) == FileKind::Directory {
                    assert(self.is_dir(d2 as int));
                    self.lemma_step(d2, last);
                    img.lemma_step(d2, last);
                    if let Ok(x) = self.step(d2, last) {
                        let (k, j) = choose|k: int, j: int|
                            #[trigger] self.links(d2 as int, k, j) && self.label(d2 as int, k, j)
                                == last && self.target(d2 as int, k, j) == x;
                        assert(img.links(d2 as int, k, j));
                        assert(self.inodes[x as int].allocated);
                    }
                }
            }
            if let Ok(d2) = img.resolve(head) {
                assert(img.inodes[d2 as int].allocated);
                if img.kind(d2) == FileKind::Directory {
                    img.lemma_step(d2, last);
                    if let Ok(x) = img.step(d2, last) {
                        let (k, j) = choose|k: int, j: int|
                            #[trigger] img.links(d2 as int, k, j) && img.label(d2 as int, k, j)
                                == last && img.target(d2 as int, k, j) == x;
                        assert(d2 != id);
                        assert(self.inodes[d2 as int].allocated);
                        assert(self.is_dir(d2 as int));
                        self.lemma_step(d2, last);
                        if x != id {
                            assert(self.links(d2 as int, k, j));
                        }
                    }
                }
            }
        }
    }

    /// The new name leads to the new inode.
    pub proof fn lemma_added_leads(
        self,
        img: ImageView,
        d: u32,
        name: Seq<char>,
        id: u32,
        parts: Seq<Seq<char>>,
    )
        requires
            self.sound(),
            img.sound(),
            self.added(img, d as int, name, id),
            self.resolve(parts) == Ok::<u32, ErrorView>(d),
        ensures
            img.resolve(parts.push(name)) == Ok::<u32, ErrorView>(id),
    {
        self.lemma_added_resolve(img, d as int, name, id, parts);
        assert(parts.push(name).drop_last() =~= parts);
        assert(self.inodes[d as int].allocated);
        img.lemma_step(d, name);
        let (k, j) = choose|k: int, j: int|
            #[trigger] img.links(d as int, k, j) && img.label(d as int, k, j) == name && img.target(
                d as int,
                k,
                j,
            ) == id;
        assert(img.links(d as int, k, j));
    }
}

/// The tree has no cycles: no way comes to the same inode twice.
pub proof fn law_no_cycles(img: ImageView, parts: Seq<Seq<char>>, n: int, m: int)
    requires
        img.sound(),
        0 <= n < m <= parts.len(),
        img.resolve(parts.take(m)) is Ok,
    ensures
        img.resolve(parts.take(n)) != img.resolve(parts.take(m)),
    decreases n,
{
    let near = parts.take(n);
    let far = parts.take(m);
    let x: u32 = img.resolve(far)->Ok_0;
    assert(far.drop_last() =~= parts.take(m - 1));
    img.lemma_resolve_allocated(far.drop_last());
    let d2: u32 = img.resolve(far.drop_last())->Ok_0;
    img.lemma_step(d2, far.last());
    let (k2, j2) = choose|k: int, j: int|
        #[trigger] img.links(d2 as int, k, j) && img.label(d2 as int, k, j) == far.last()
            && img.target(d2 as int, k, j) == x;
    assert(img.links(d2 as int, k2, j2));
    if n > 0 && img.resolve(near) == img.resolve(far) {
        assert(near.drop_last() =~= parts.take(n - 1));
        img.lemma_resolve_allocated(near.drop_last());
        let d1: u32 = img.resolve(near.drop_last())->Ok_0;
        img.lemma_step(d1, near.last());
        let (k1, j1) = choose|k: int, j: int|
            #[trigger] img.links(d1 as int, k, j) && img.label(d1 as int, k, j) == near.last()
                && img.target(d1 as int, k, j) == x;
        assert(img.links(d1 as int, k1, j1));
        assert(d1 == d2);
        law_no_cycles(img, parts, n - 1, m - 1);
    }
}

} // verus!
