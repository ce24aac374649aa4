//! Listings: the names in them, and the order in which they come.

use vstd::prelude::*;
use crate::error::ErrorView;
use crate::model::entry::EntryView;
use crate::model::image::ImageView;
use crate::model::tree::ItemView;
use crate::path::{components, law_slash_separates, lemma_single_component, proper_name, split};

verus! {

/// The items of a listing under other names than `name`.
pub open spec fn not_named(name: Seq<char>) -> spec_fn(ItemView) -> bool {
    |item: ItemView| item.name != name
}

/// A listing has an item under `name`.
pub open spec fn lists(items: Seq<ItemView>, name: Seq<char>) -> bool {
    exists|i: int| 0 <= i < items.len() && (#[trigger] items[i]).name == name
}

/// The path of what the directory at `path` holds under `name`.
pub open spec fn below(path: Seq<char>, name: Seq<char>) -> Seq<char> {
    path + seq!['/'] + name
}

/// A name below a path is one component more.
pub proof fn lemma_below(path: Seq<char>, name: Seq<char>)
    requires
        split(path) is Ok,
        proper_name(name),
    ensures
        split(below(path, name)) == Ok::<Seq<Seq<char>>, ErrorView>(
            split(path)->Ok_0.push(name),
        ),
{
    let parts = split(path)->Ok_0;
    let all = components(below(path, name));
    law_slash_separates(path, name);
    lemma_single_component(name);
    assert(all =~= parts.push(name));
    assert(below(path, name)[0] == path[0]);
}

impl ImageView {
    /// The entry that was read at position `p` stands at the place that the
    /// position tells.
    pub proof fn lemma_entry_place(self, d: int, p: int)
        requires
            self.sound(),
            self.is_dir(d),
            self.entries(self.inodes[d]) is Ok,
            0 <= p < self.entries(self.inodes[d])->Ok_0.len(),
        ensures
            p == (p / self.slots()) * self.slots() + p % self.slots(),
            self.is_slot(d, p / self.slots(), p % self.slots()),
            self.entry_at(d, p / self.slots(), p % self.slots()) == Ok::<EntryView, ErrorView>(
                self.entries(self.inodes[d])->Ok_0[p],
            ),
    {
        let node = self.inodes[d];
        let n = self.covered(node);
        let slots = self.slots();
        let k = p / slots;
        let j = p % slots;
        self.lemma_covered_nonnegative(node);
        self.lemma_scan_places(d, n);
        assert(slots > 0) by (nonlinear_arith)
            requires
                0 <= p < n * slots,
                0 <= slots,
        ;
        vstd::arithmetic::div_mod::lemma_fundamental_div_mod(p, slots);
        vstd::arithmetic::mul::lemma_mul_is_commutative(k, slots);
        assert(0 <= k < n) by (nonlinear_arith)
            requires
                p == k * slots + j,
                0 <= j < slots,
                0 <= p < n * slots,
        ;
    }

    /// The entry at a place was read at the position that the place tells.
    pub proof fn lemma_place_entry(self, d: int, k: int, j: int)
        requires
            self.sound(),
            self.is_slot(d, k, j),
            self.entries(self.inodes[d]) is Ok,
        ensures
            0 <= k * self.slots() + j < self.entries(self.inodes[d])->Ok_0.len(),
            self.entry_at(d, k, j) == Ok::<EntryView, ErrorView>(
                self.entries(self.inodes[d])->Ok_0[k * self.slots() + j],
            ),
    {
        self.lemma_covered_nonnegative(self.inodes[d]);
        self.lemma_scan_places(d, self.covered(self.inodes[d]));
    }

    /// Where the entries in use are some of those that were, at the same
    /// positions, the listing is what is left of the listing that was.
    proof fn lemma_listing_filter(
        self,
        img: ImageView,
        es: Seq<EntryView>,
        left: Seq<EntryView>,
        keep: spec_fn(ItemView) -> bool,
    )
        requires
            forall|p: int|
                0 <= p < left.len() && (#[trigger] left[p]).used ==> {
                    &&& p < es.len()
                    &&& es[p] == left[p]
                    &&& img.item(left[p]) == self.item(left[p])
                    &&& keep(self.item(left[p]))
                },
            forall|p: int|
                0 <= p < es.len() && (#[trigger] es[p]).used && keep(self.item(es[p])) ==> p
                    < left.len() && left[p].used,
        ensures
            img.listing(left) == self.listing(es).filter(keep),
        decreases es.len() + left.len(),
    {
        reveal(Seq::filter);
        if left.len() > es.len() {
            let head = left.drop_last();
            assert(!left[left.len() - 1].used);
            self.lemma_listing_filter(img, es, head, keep);
        } else if es.len() > 0 {
            let head = es.drop_last();
            let last = es.last();
            let all = self.listing(es);
            assert(last == es[es.len() - 1]);
            if last.used {
                assert(all.drop_last() =~= self.listing(head));
            }
            if left.len() < es.len() {
                self.lemma_listing_filter(img, head, left, keep);
            } else {
                self.lemma_listing_filter(img, head, left.drop_last(), keep);
                assert(left.last() == left[left.len() - 1]);
            }
        }
    }

    /// Where the entries in use of the directory `d` are some of those that
    /// were, at the same places, its listing is what is left of the listing
    /// that was.
    pub proof fn lemma_list_filter(
        self,
        img: ImageView,
        d: u32,
        keep: spec_fn(ItemView) -> bool,
    )
        requires
            self.sound(),
            img.sound(),
            img.sb == self.sb,
            self.is_dir(d as int),
            img.is_dir(d as int),
            self.entries(self.inodes[d as int]) is Ok,
            img.entries(img.inodes[d as int]) is Ok,
            forall|k: int, j: int| #[trigger]
                img.links(d as int, k, j) ==> {
                    let e = img.entry_at(d as int, k, j)->Ok_0;
                    &&& self.links(d as int, k, j)
                    &&& self.entry_at(d as int, k, j) == img.entry_at(d as int, k, j)
                    &&& img.item(e) == self.item(e)
                    &&& keep(self.item(e))
                },
            forall|k: int, j: int|
                #[trigger] self.links(d as int, k, j) && keep(
                    self.item(self.entry_at(d as int, k, j)->Ok_0),
                ) ==> img.links(d as int, k, j),
        ensures
            img.list(d) == Ok::<Seq<ItemView>, ErrorView>(self.list(d)->Ok_0.filter(keep)),
    {
        let dir = d as int;
        let es = self.entries(self.inodes[dir])->Ok_0;
        let left = img.entries(img.inodes[dir])->Ok_0;
        assert forall|p: int| 0 <= p < left.len() && (#[trigger] left[p]).used implies {
            &&& p < es.len()
            &&& es[p] == left[p]
            &&& img.item(left[p]) == self.item(left[p])
            &&& keep(self.item(left[p]))
        } by {
            let k = p / img.slots();
            let j = p % img.slots();
            img.lemma_entry_place(dir, p);
            assert(img.links(dir, k, j));
            self.lemma_place_entry(dir, k, j);
        }
        assert forall|p: int|
            0 <= p < es.len() && (#[trigger] es[p]).used && keep(self.item(es[p])) implies p
            < left.len() && left[p].used by {
            let k = p / self.slots();
            let j = p % self.slots();
            self.lemma_entry_place(dir, p);
            assert(self.links(dir, k, j));
            assert(img.links(dir, k, j));
            img.lemma_place_entry(dir, k, j);
        }
        self.lemma_listing_filter(img, es, left, keep);
    }

    /// The directory `d` has an entry in use with this listing item.
    pub open spec fn holds_item(self, d: int, item: ItemView) -> bool {
        exists|k: int, j: int|
            #[trigger] self.links(d, k, j) && self.item(self.entry_at(d, k, j)->Ok_0) == item
    }

    /// The names in the listing of entries whose names differ differ.
    proof fn lemma_listing_distinct(self, es: Seq<EntryView>)
        requires
            forall|p: int, q: int|
                0 <= p < q < es.len() && (#[trigger] es[p]).used && (#[trigger] es[q]).used
                    ==> es[p].name != es[q].name,
        ensures
            forall|i: int, j: int|
                0 <= i < j < self.listing(es).len() ==> (#[trigger] self.listing(es)[i]).name != (
                #[trigger] self.listing(es)[j]).name,
        decreases es.len(),
    {
        if es.len() > 0 {
            let head = es.drop_last();
            let before = self.listing(head);
            let all = self.listing(es);
            self.lemma_listing_distinct(head);
            if es.last().used {
                assert forall|i: int, j: int| 0 <= i < j < all.len() implies (
                #[trigger] all[i]).name != (#[trigger] all[j]).name by {
                    assert(all[i] == before[i]);
                    if j < before.len() {
                        assert(all[j] == before[j]);
                    } else {
                        self.lemma_listing_items(head, before[i]);
                        assert(before.contains(before[i]));
                        let p = choose|p: int|
                            0 <= p < head.len() && (#[trigger] head[p]).used && self.item(head[p])
                                == before[i];
                        assert(es[p] == head[p]);
                        assert(es[es.len() - 1].used);
                    }
                }
            }
        }
    }
}

/// A listing holds each name once, and only names that a path can have as
/// components: neither `.` nor `..` is among them, nor the empty name. Every
/// item is that of an entry in use.
pub proof fn law_listing_names(img: ImageView, path: Seq<char>)
    requires
        img.sound(),
        img.readdir(path) is Ok,
    ensures
        ({
            let items = img.readdir(path)->Ok_0;
            &&& forall|i: int, j: int|
                0 <= i < j < items.len() ==> (#[trigger] items[i]).name != (
                #[trigger] items[j]).name
            &&& forall|i: int|
                0 <= i < items.len() ==> {
                    &&& proper_name((#[trigger] items[i]).name)
                    &&& img.holds_item(img.lookup(path)->Ok_0 as int, items[i])
                }
        }),
{
    let id: u32 = img.lookup(path)->Ok_0;
    let d = id as int;
    img.lemma_resolve_allocated(split(path)->Ok_0);
    let es = img.entries(img.inodes[d])->Ok_0;
    let items = img.readdir(path)->Ok_0;
    assert forall|p: int, q: int|
        0 <= p < q < es.len() && (#[trigger] es[p]).used && (#[trigger] es[q]).used implies es[p].name
        != es[q].name by {
        img.lemma_entry_place(d, p);
        img.lemma_entry_place(d, q);
        assert(img.links(d, p / img.slots(), p % img.slots()));
        assert(img.links(d, q / img.slots(), q % img.slots()));
    }
    img.lemma_listing_distinct(es);
    assert forall|i: int| 0 <= i < items.len() implies {
        &&& proper_name((#[trigger] items[i]).name)
        &&& img.holds_item(d, items[i])
    } by {
        img.lemma_list_items(id, items[i]);
        assert(items.contains(items[i]));
        let (k, j) = choose|k: int, j: int|
            #[trigger] img.links(d, k, j) && img.item(img.entry_at(d, k, j)->Ok_0) == items[i];
        assert(img.links(d, k, j));
    }
}

/// A directory that can be listed lists a name exactly if the path below it
/// with that name leads somewhere, and the item tells the inode and the kind
/// that `stat` tells.
pub proof fn law_listing_stat(img: ImageView, path: Seq<char>, name: Seq<char>)
    requires
        img.sound(),
        img.readdir(path) is Ok,
        proper_name(name),
    ensures
        ({
            let items = img.readdir(path)->Ok_0;
            let found = img.stat(below(path, name));
            &&& lists(items, name) <==> found is Ok
            &&& forall|i: int|
                0 <= i < items.len() && (#[trigger] items[i]).name == name ==> {
                    &&& found->Ok_0.inode == items[i].inode
                    &&& found->Ok_0.kind == items[i].kind
                    &&& img.lookup(below(path, name)) == Ok::<u32, ErrorView>(items[i].inode)
                }
        }),
{
    let id: u32 = img.lookup(path)->Ok_0;
    let d = id as int;
    let parts = split(path)->Ok_0;
    let items = img.readdir(path)->Ok_0;
    let found = img.stat(below(path, name));
    lemma_below(path, name);
    assert(parts.push(name).drop_last() =~= parts);
    img.lemma_resolve_allocated(parts);
    img.lemma_resolve_allocated(parts.push(name));
    img.lemma_step(id, name);
    assert forall|i: int| 0 <= i < items.len() && (#[trigger] items[i]).name == name implies {
        &&& found is Ok
        &&& found->Ok_0.inode == items[i].inode
        &&& found->Ok_0.kind == items[i].kind
        &&& img.lookup(below(path, name)) == Ok::<u32, ErrorView>(items[i].inode)
    } by {
        img.lemma_list_items(id, items[i]);
        assert(items.contains(items[i]));
        let (k, j) = choose|k: int, j: int|
            #[trigger] img.links(d, k, j) && img.item(img.entry_at(d, k, j)->Ok_0) == items[i];
        assert(img.links(d, k, j));
        assert(img.label(d, k, j) == name);
        assert(img.node_sound(items[i].inode as int));
    }
    if let Ok(x) = img.step(id, name) {
        let (k, j) = choose|k: int, j: int|
            #[trigger] img.links(d, k, j) && img.label(d, k, j) == name && img.target(d, k, j) == x;
        assert(img.links(d, k, j));
        let item = img.item(img.entry_at(d, k, j)->Ok_0);
        img.lemma_list_items(id, item);
        let i = items.index_of(item);
        assert(items[i].name == name);
    }
}

} // verus!
