//! Images in which the tables agree with each other.

use vstd::prelude::*;
use crate::block::INODE_COUNT;
use crate::error::{ErrorView, Outcome};
use crate::inode::{empty_inode, FileKind, DIRECT_POINTERS, NULL_BLOCK};
use crate::model::dir::{block_entries, is_named, position_from, slot};
use crate::model::entry::{decode_entry, EntryView};
use crate::model::image::{fresh_image, ImageView};
use crate::model::range::{lemma_block_entries, lemma_first_named};
use crate::path::proper_name;

verus! {

/// All entries of a block can be read if each of them can.
pub proof fn lemma_block_entries_ok(data: Seq<u8>, n: int)
    requires
        forall|j: int| 0 <= j < n ==> #[trigger] decode_entry(slot(data, j)) is Ok,
    ensures
        block_entries(data, n) is Ok,
    decreases n,
{
    if n > 0 {
        lemma_block_entries_ok(data, n - 1);
    }
}

/// Entry `j` of block `k` stands before the entries of block `n`.
proof fn lemma_slot_index(k: int, j: int, n: int, slots: int)
    requires
        0 <= k < n,
        0 <= j < slots,
    ensures
        0 <= k * slots + j < n * slots,
{
    assert(0 <= k * slots + j < n * slots) by (nonlinear_arith)
        requires
            0 <= k < n,
            0 <= j < slots,
    ;
}

impl ImageView {
    /// Inode `d` is a directory in use.
    pub open spec fn is_dir(self, d: int) -> bool {
        &&& 0 <= d < self.inodes.len()
        &&& self.inodes[d].allocated
        &&& self.inodes[d].kind == FileKind::Directory
    }

    /// The directory `d` has an entry `j` in its `k`-th block.
    pub open spec fn is_slot(self, d: int, k: int, j: int) -> bool {
        &&& self.is_dir(d)
        &&& 0 <= k < self.covered(self.inodes[d])
        &&& 0 <= j < self.slots()
    }

    /// Entry `j` in the `k`-th block of the directory `d`.
    pub open spec fn entry_at(self, d: int, k: int, j: int) -> Outcome<EntryView> {
        decode_entry(slot(self.blocks[self.pointer(self.inodes[d], k) as int], j))
    }

    /// Entry `j` in the `k`-th block of the directory `d` is in use.
    pub open spec fn links(self, d: int, k: int, j: int) -> bool {
        self.is_slot(d, k, j) && (self.entry_at(d, k, j) matches Ok(e) && e.used)
    }

    /// The inode that the entry in use at this place names.
    pub open spec fn target(self, d: int, k: int, j: int) -> u32 {
        self.entry_at(d, k, j)->Ok_0.inode
    }

    /// The name of the entry in use at this place.
    pub open spec fn label(self, d: int, k: int, j: int) -> Seq<char> {
        self.entry_at(d, k, j)->Ok_0.name
    }

    /// The data blocks of inode `i` are there as far as its size tells, and a
    /// directory has no others.
    pub open spec fn blocks_present(self, i: int) -> bool {
        let node = self.inodes[i];
        &&& forall|k: int|
            0 <= k < self.covered(node) ==> #[trigger] self.pointer(node, k) != NULL_BLOCK
        &&& node.kind == FileKind::Directory ==> forall|k: int|
            k >= self.covered(node) ==> #[trigger] self.pointer(node, k) == NULL_BLOCK
    }

    /// Inode `i` is in order: its id is its position; it is a placeholder
    /// unless it is in use.
    pub open spec fn node_sound(self, i: int) -> bool {
        let node = self.inodes[i];
        &&& node.id == i
        &&& !node.allocated ==> node == empty_inode(i as u32)
        &&& node.allocated ==> node.link_count == 1 && self.blocks_present(i)
    }

    /// Entries in use name inodes in use other than the root.
    pub open spec fn links_lead(self) -> bool {
        forall|d: int, k: int, j: int| #[trigger]
            self.links(d, k, j) ==> {
                let x = self.target(d, k, j);
                0 < x < INODE_COUNT && self.inodes[x as int].allocated
            }
    }

    /// No two entries in use name the same inode.
    pub open spec fn links_distinct(self) -> bool {
        forall|d: int, k: int, j: int, d2: int, k2: int, j2: int|
            #[trigger] self.links(d, k, j) && #[trigger] self.links(d2, k2, j2) && self.target(
                d,
                k,
                j,
            ) == self.target(d2, k2, j2) ==> d == d2 && k == k2 && j == j2
    }

    /// No two entries in use of a directory have the same name.
    pub open spec fn labels_distinct(self) -> bool {
        forall|d: int, k: int, j: int, k2: int, j2: int|
            #[trigger] self.links(d, k, j) && #[trigger] self.links(d, k2, j2) && self.label(
                d,
                k,
                j,
            ) == self.label(d, k2, j2) ==> k == k2 && j == j2
    }

    /// The entries in use have names that a path can have as components.
    pub open spec fn labels_proper(self) -> bool {
        forall|d: int, k: int, j: int| #[trigger]
            self.links(d, k, j) ==> proper_name(self.label(d, k, j))
    }

    /// The tables agree with each other. The pointers and the bitmap agree on
    /// the use of blocks; entries name inodes in use, each of them at most
    /// once; the names in a directory differ, and each can be the component of
    /// a path.
    pub open spec fn sound(self) -> bool {
        &&& self.mapped()
        &&& self.sb.num_inodes == INODE_COUNT
        &&& self.sb.root_inode == 0
        &&& forall|i: int| 0 <= i < self.inodes.len() ==> #[trigger] self.node_sound(i)
        &&& self.is_dir(0)
        &&& self.links_lead()
        &&& self.links_distinct()
        &&& self.labels_distinct()
        &&& self.labels_proper()
    }

    /// If the directory `d` can be read, its entries in use name inodes in use.
    pub open spec fn entries_lead(self, d: int) -> bool {
        self.entries(self.inodes[d]) matches Ok(es) ==> forall|i: int|
            0 <= i < es.len() && (#[trigger] es[i]).used ==> {
                &&& es[i].inode < self.inodes.len()
                &&& self.inodes[es[i].inode as int].allocated
            }
    }

    /// The pointers and the bitmap agree, and names lead to inodes in use: what
    /// a file needs to be written without harm to anything else.
    pub open spec fn orderly(self) -> bool {
        &&& self.mapped()
        &&& self.inodes[0].allocated
        &&& forall|d: int| #[trigger] self.is_dir(d) ==> self.entries_lead(d)
    }

    /// Every entry of every directory can be read.
    pub open spec fn readable(self) -> bool {
        forall|d: int, k: int, j: int|
            self.is_slot(d, k, j) ==> #[trigger] self.entry_at(d, k, j) is Ok
    }

    /// Some path leads to inode `i`.
    pub open spec fn reachable(self, i: int) -> bool {
        exists|parts: Seq<Seq<char>>| #[trigger] self.leads_to(parts, i)
    }

    /// The names `parts` lead from the root to inode `i`.
    pub open spec fn leads_to(self, parts: Seq<Seq<char>>, i: int) -> bool {
        self.resolve(parts) matches Ok(x) && x == i
    }

    /// The tables agree with each other, every directory can be read, and
    /// every inode in use can be reached.
    pub open spec fn healthy(self) -> bool {
        &&& self.sound()
        &&& self.readable()
        &&& forall|i: int|
            0 <= i < self.inodes.len() && (#[trigger] self.inodes[i]).allocated
                ==> self.reachable(i)
    }

    /// A pointer of a sound image leads to a block of the image that is in use.
    pub proof fn lemma_pointer_bound(self, i: int, k: int)
        requires
            self.mapped(),
            0 <= i < self.inodes.len(),
            self.inodes[i].allocated,
            0 <= k,
        ensures
            self.pointer(self.inodes[i], k) == NULL_BLOCK || self.pointer(self.inodes[i], k)
                < self.blocks.len() && self.bitmap[self.pointer(self.inodes[i], k) as int],
    {
        self.lemma_pointer_field(i, k);
        if k < DIRECT_POINTERS {
            assert(self.is_field(i, k));
        } else if k - DIRECT_POINTERS < self.words() {
            assert(self.is_field(i, k + 1));
        }
    }

    /// In a sound image every pointer and every entry stays inside the image.
    pub proof fn lemma_sound_in_range(self)
        requires
            self.sound(),
        ensures
            self.in_range(),
    {
        assert forall|i: int| 0 <= i < self.inodes.len() implies {
            &&& (#[trigger] self.inodes[i]).id < INODE_COUNT
            &&& self.node_in_range(self.inodes[i])
            &&& self.inodes[i].kind == FileKind::Directory ==> self.dir_in_range(self.inodes[i])
        } by {
            let node = self.inodes[i];
            assert(self.node_sound(i));
            if node.allocated {
                assert(self.is_field(i, DIRECT_POINTERS as int));
                assert(self.field(i, DIRECT_POINTERS as int) == node.indirect);
                assert forall|k: int| 0 <= k < DIRECT_POINTERS + self.words() implies {
                    ||| #[trigger] self.pointer(node, k) == NULL_BLOCK
                    ||| self.pointer(node, k) < self.blocks.len()
                } by {
                    self.lemma_pointer_bound(i, k);
                }
                if node.kind == FileKind::Directory {
                    assert forall|k: int, j: int|
                        #![trigger self.pointer(node, k), slot(self.blocks[self.pointer(node, k) as int], j)]
                        0 <= k < self.covered(node) && 0 <= j < self.slots() && self.pointer(
                            node,
                            k,
                        ) != NULL_BLOCK implies {
                        decode_entry(slot(self.blocks[self.pointer(node, k) as int], j)) matches Ok(
                            e,
                        ) ==> e.used ==> e.inode < INODE_COUNT
                    } by {
                        if self.links(i, k, j) {
                            assert(self.target(i, k, j) < INODE_COUNT);
                        }
                    }
                }
            }
        }
    }

    /// The entries that were read are the entries at the places of the
    /// directory, block by block.
    pub proof fn lemma_scan_places(self, d: int, n: int)
        requires
            n >= 0,
            self.scan(self.inodes[d], n) is Ok,
        ensures
            ({
                let es = self.scan(self.inodes[d], n)->Ok_0;
                &&& es.len() == n * self.slots()
                &&& forall|k: int, j: int|
                    0 <= k < n && 0 <= j < self.slots() ==> {
                        &&& 0 <= k * self.slots() + j < es.len()
                        &&& #[trigger] self.entry_at(d, k, j) == Ok::<EntryView, ErrorView>(
                            es[k * self.slots() + j],
                        )
                    }
            }),
        decreases n,
    {
        let node = self.inodes[d];
        let slots = self.slots();
        if n > 0 {
            self.lemma_scan_places(d, n - 1);
            let head = self.scan(node, n - 1)->Ok_0;
            let data = self.blocks[self.pointer(node, n - 1) as int];
            lemma_block_entries(data, slots);
            let tail = block_entries(data, slots)->Ok_0;
            let es = self.scan(node, n)->Ok_0;
            assert(n * slots == (n - 1) * slots + slots) by (nonlinear_arith);
            assert forall|k: int, j: int| 0 <= k < n && 0 <= j < slots implies {
                &&& 0 <= k * slots + j < es.len()
                &&& #[trigger] self.entry_at(d, k, j) == Ok::<EntryView, ErrorView>(
                    es[k * slots + j],
                )
            } by {
                if k < n - 1 {
                    lemma_slot_index(k, j, n - 1, slots);
                    assert(es[k * slots + j] == head[k * slots + j]);
                } else {
                    assert((n - 1) * slots >= 0);
                    assert(es[k * slots + j] == tail[j]);
                    assert(decode_entry(slot(data, j)) == Ok::<EntryView, ErrorView>(tail[j]));
                }
            }
        }
    }

    /// A directory whose entries can all be read can be read.
    pub proof fn lemma_scan_ok(self, d: int, n: int)
        requires
            forall|k: int|
                0 <= k < n ==> #[trigger] self.pointer(self.inodes[d], k) != NULL_BLOCK,
            forall|k: int, j: int|
                0 <= k < n && 0 <= j < self.slots() ==> #[trigger] self.entry_at(d, k, j) is Ok,
        ensures
            self.scan(self.inodes[d], n) is Ok,
        decreases n,
    {
        if n > 0 {
            self.lemma_scan_ok(d, n - 1);
            let data = self.blocks[self.pointer(self.inodes[d], n - 1) as int];
            assert forall|j: int| 0 <= j < self.slots() implies #[trigger] decode_entry(
                slot(data, j),
            ) is Ok by {
                assert(self.entry_at(d, n - 1, j) is Ok);
            }
            lemma_block_entries_ok(data, self.slots());
        }
    }

    /// In a readable image every directory can be read.
    pub proof fn lemma_entries_ok(self, d: int)
        requires
            self.sound(),
            self.readable(),
            self.is_dir(d),
        ensures
            self.entries(self.inodes[d]) is Ok,
    {
        assert(self.node_sound(d));
        let n = self.covered(self.inodes[d]);
        assert forall|k: int, j: int| 0 <= k < n && 0 <= j < self.slots() implies #[trigger] self.entry_at(
            d,
            k,
            j,
        ) is Ok by {
            assert(self.is_slot(d, k, j));
        }
        self.lemma_scan_ok(d, n);
    }

    /// Looking up a name finds the entry in use that has it.
    pub proof fn lemma_find(self, d: int, name: Seq<char>)
        requires
            self.sound(),
            self.is_dir(d),
            self.entries(self.inodes[d]) is Ok,
        ensures
            match self.find_entry(self.inodes[d], name) {
                Ok(Some(e)) => exists|k: int, j: int|
                    {
                        &&& #[trigger] self.links(d, k, j)
                        &&& self.entry_at(d, k, j) == Ok::<EntryView, ErrorView>(e)
                        &&& e.name == name
                    },
                Ok(None) => forall|k: int, j: int| #[trigger]
                    self.links(d, k, j) ==> self.label(d, k, j) != name,
                Err(_) => false,
            },
            forall|k: int, j: int| #[trigger]
                self.links(d, k, j) && self.label(d, k, j) == name ==> self.find_entry(
                    self.inodes[d],
                    name,
                ) == Ok::<Option<EntryView>, ErrorView>(Some(self.entry_at(d, k, j)->Ok_0)),
    {
        let node = self.inodes[d];
        let n = self.covered(node);
        let slots = self.slots();
        self.lemma_covered_nonnegative(node);
        self.lemma_scan_places(d, n);
        let es = self.entries(node)->Ok_0;
        lemma_first_named(es, name, 0);
        let p = position_from(es, name, 0);
        if p < es.len() {
            let k = p / slots;
            let j = p % slots;
            assert(slots > 0) by (nonlinear_arith)
                requires
                    0 <= p < n * slots,
                    0 <= slots,
            ;
            vstd::arithmetic::div_mod::lemma_fundamental_div_mod(p, slots);
            vstd::arithmetic::mul::lemma_mul_is_commutative(k, slots);
            assert(0 <= k < n) by (nonlinear_arith)
                requires
                    p == k * slots + j,
                    0 <= j < slots,
                    0 <= p < n * slots,
            ;
            assert(self.entry_at(d, k, j) == Ok::<EntryView, ErrorView>(es[p]));
            assert(self.links(d, k, j));
            assert(self.label(d, k, j) == name);
        }
        assert forall|k: int, j: int| #[trigger]
            self.links(d, k, j) && self.label(d, k, j) == name implies self.find_entry(node, name)
            == Ok::<Option<EntryView>, ErrorView>(Some(self.entry_at(d, k, j)->Ok_0)) by {
            assert(self.entry_at(d, k, j) == Ok::<EntryView, ErrorView>(es[k * slots + j]));
            assert(is_named(es[k * slots + j], name));
        }
    }

    /// A name that leads from a directory to an inode is that of an entry in
    /// use, and the other way round.
    pub proof fn lemma_step(self, d: u32, name: Seq<char>)
        requires
            self.sound(),
            self.is_dir(d as int),
        ensures
            self.step(d, name) matches Ok(x) ==> {
                &&& self.entries(self.inodes[d as int]) is Ok
                &&& exists|k: int, j: int|
                    #[trigger] self.links(d as int, k, j) && self.label(d as int, k, j) == name
                        && self.target(d as int, k, j) == x
            },
            self.entries(self.inodes[d as int]) is Ok ==> forall|k: int, j: int| #[trigger]
                self.links(d as int, k, j) && self.label(d as int, k, j) == name ==> self.step(
                    d,
                    name,
                ) == Ok::<u32, ErrorView>(self.target(d as int, k, j)),
    {
        if self.entries(self.inodes[d as int]) is Ok {
            self.lemma_find(d as int, name);
        }
    }

    /// What names lead to is an inode in use.
    pub proof fn lemma_resolve_allocated(self, parts: Seq<Seq<char>>)
        requires
            self.sound(),
        ensures
            self.resolve(parts) matches Ok(x) ==> x < self.inodes.len()
                && self.inodes[x as int].allocated,
        decreases parts.len(),
    {
        if parts.len() > 0 {
            self.lemma_resolve_allocated(parts.drop_last());
            if let Ok(d) = self.resolve(parts.drop_last()) {
                if self.kind(d) == FileKind::Directory {
                    self.lemma_step(d, parts.last());
                }
            }
        }
    }
}

/// A fresh image is healthy.
pub proof fn law_fresh_healthy(block_size: nat, num_blocks: nat)
    requires
        0 < block_size <= u32::MAX,
        num_blocks <= u32::MAX,
    ensures
        fresh_image(block_size, num_blocks).healthy(),
        fresh_image(block_size, num_blocks).in_range(),
        fresh_image(block_size, num_blocks).storable(),
{
    let img = fresh_image(block_size, num_blocks);
    assert(img.shaped());
    assert forall|i: int, s: int| img.is_field(i, s) implies #[trigger] img.field(i, s)
        == NULL_BLOCK by {}
    assert forall|i: int| 0 <= i < img.inodes.len() implies img.covered(
        #[trigger] img.inodes[i],
    ) == 0 by {
        vstd::arithmetic::div_mod::lemma_basic_div(img.bs() - 1, img.bs());
    }
    assert forall|i: int| 0 <= i < img.inodes.len() implies #[trigger] img.node_sound(i) by {
        assert(img.covered(img.inodes[i]) == 0);
    }
    assert(img.sound());
    assert(img.resolve(Seq::empty()) == Ok::<u32, ErrorView>(0));
    assert forall|i: int|
        0 <= i < img.inodes.len() && (#[trigger] img.inodes[i]).allocated implies img.reachable(
        i,
    ) by {
        assert(img.leads_to(Seq::empty(), i));
    }
    img.lemma_sound_in_range();
}

} // verus!
