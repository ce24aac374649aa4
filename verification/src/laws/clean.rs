//! Writing on images that the consistency check finds clean.

use vstd::prelude::*;
use crate::block::{largest_file, INODE_COUNT};
use crate::error::ErrorView;
use crate::inode::{FileKind, DIRECT_POINTERS, NULL_BLOCK};
use crate::laws::check::{law_check_clean, lemma_names_concat};
use crate::laws::space::{blocks_needed, law_write_outcome};
use crate::laws::write::{law_read_after_write, law_write_keeps_others};
use crate::model::image::{live, names_block, ImageView};
use crate::model::owner::lemma_live_names;
use crate::path::split;

verus! {

/// A sequence of pointers of which those in use differ from each other.
proof fn lemma_live_differs(s: Seq<u32>, i: int, j: int)
    requires
        forall|p: int|
            0 <= p < live(s).len() ==> !names_block(live(s).take(p), #[trigger] live(s)[p] as int),
        0 <= i < j < s.len(),
        s[i] != NULL_BLOCK,
    ensures
        s[i] != s[j],
    decreases s.len(),
{
    let head = s.drop_last();
    let last = s.last();
    if last == NULL_BLOCK {
        assert(live(s) == live(head));
        if j < head.len() {
            lemma_live_differs(head, i, j);
        }
    } else {
        let all = live(s);
        assert(all == live(head).push(last));
        if j < head.len() {
            assert forall|p: int| 0 <= p < live(head).len() implies !names_block(
                live(head).take(p),
                #[trigger] live(head)[p] as int,
            ) by {
                assert(all[p] == live(head)[p]);
                assert(all.take(p) =~= live(head).take(p));
            }
            lemma_live_differs(head, i, j);
        } else if s[i] == last {
            let p = live(head).len() as int;
            assert(all[p] == last);
            assert(all.take(p) =~= live(head));
            lemma_live_names(head, last as int);
            assert(head[i] == last);
        }
    }
}

impl ImageView {
    /// The pointers of one inode among pointers that are in order.
    proof fn lemma_tidy_part(self, n: int, i: int)
        requires
            self.pointers_tidy(self.references(n)),
            0 <= i < n,
        ensures
            self.pointers_tidy(self.gather(i)),
        decreases n,
    {
        let before = self.references(n - 1);
        let ptrs = self.gather(n - 1);
        let all = self.references(n);
        if i < n - 1 {
            self.lemma_tidy_prefix(before, ptrs);
            self.lemma_tidy_part(n - 1, i);
        } else {
            assert forall|p: int| 0 <= p < ptrs.len() implies {
                &&& (#[trigger] ptrs[p]) < self.bitmap.len()
                &&& self.bitmap[ptrs[p] as int]
                &&& !names_block(ptrs.take(p), ptrs[p] as int)
            } by {
                let q = before.len() + p;
                assert(all[q] == ptrs[p]);
                assert(all.take(q) =~= before + ptrs.take(p));
                lemma_names_concat(before, ptrs.take(p), ptrs[p] as int);
            }
        }
    }

    /// Two inodes share no block where all pointers are in order.
    proof fn lemma_tidy_apart(self, n: int, i: int, j: int, b: int)
        requires
            self.shaped(),
            n <= self.inodes.len(),
            self.pointers_tidy(self.references(n)),
            0 <= i < j < n,
            self.owns(i, b),
        ensures
            !self.owns(j, b),
        decreases n,
    {
        let before = self.references(n - 1);
        let ptrs = self.gather(n - 1);
        let all = self.references(n);
        if j < n - 1 {
            self.lemma_tidy_prefix(before, ptrs);
            self.lemma_tidy_apart(n - 1, i, j, b);
        } else if self.owns(j, b) {
            self.lemma_references(n - 1, b);
            self.lemma_gather(n - 1, b);
            let r = choose|r: int| 0 <= r < ptrs.len() && #[trigger] ptrs[r] == b;
            let q = before.len() + r;
            assert(all[q] == b);
            assert(all.take(q) =~= before + ptrs.take(r));
            lemma_names_concat(before, ptrs.take(r), b);
        }
    }

    /// In a consistent image the pointers and the bitmap agree.
    pub proof fn lemma_consistent_mapped(self)
        requires
            self.shaped(),
            self.bs() > 0,
            self.consistent(),
        ensures
            self.mapped(),
    {
        let n = INODE_COUNT as int;
        let refs = self.references(n);
        assert forall|i: int, s: int|
            self.is_field(i, s) && #[trigger] self.field(i, s) != NULL_BLOCK implies self.field(
            i,
            s,
        ) < self.blocks.len() && self.bitmap[self.field(i, s) as int] by {
            let b = self.field(i, s) as int;
            assert(self.owns(i, b));
            self.lemma_references(n, b);
            let p = choose|p: int| 0 <= p < refs.len() && #[trigger] refs[p] == b;
            assert(refs[p] == b);
        }
        assert forall|i: int, s: int, j: int, t: int|
            self.is_field(i, s) && self.is_field(j, t) && #[trigger] self.field(i, s)
                == #[trigger] self.field(j, t) && self.field(i, s) != NULL_BLOCK implies i == j && s
            == t by {
            let b = self.field(i, s) as int;
            assert(self.owns(i, b) && self.owns(j, b));
            if i < j {
                self.lemma_tidy_apart(n, i, j, b);
            } else if j < i {
                self.lemma_tidy_apart(n, j, i, b);
            } else {
                self.lemma_tidy_part(n, i);
                let fields = self.pointer_fields(self.inodes[i]);
                assert(fields[s] == self.field(i, s));
                assert(fields[t] == self.field(i, t));
                assert forall|p: int| 0 <= p < live(fields).len() implies !names_block(
                    live(fields).take(p),
                    #[trigger] live(fields)[p] as int,
                ) by {
                    assert(self.gather(i)[p] == live(fields)[p]);
                }
                if s < t {
                    lemma_live_differs(fields, s, t);
                } else if t < s {
                    lemma_live_differs(fields, t, s);
                }
            }
        }
        assert forall|b: int| 0 <= b < self.bitmap.len() && #[trigger] self.bitmap[b] implies exists|
            i: int,
        |
            0 <= i < self.inodes.len() && #[trigger] self.owns(i, b) by {
            assert(names_block(refs, b));
            self.lemma_references(n, b);
            let i = choose|i: int| 0 <= i < n && #[trigger] self.owns(i, b);
            assert(self.owns(i, b));
        }
    }

    /// The consistency check finds nothing, and the root is in use, which the
    /// check takes for granted.
    pub open spec fn clean(self) -> bool {
        &&& self.shaped()
        &&& self.bs() > 0
        &&& self.inodes[0].allocated
        &&& self.consistent()
    }

    /// A clean image is orderly.
    pub proof fn lemma_clean_orderly(self)
        requires
            self.clean(),
        ensures
            self.orderly(),
    {
        self.lemma_consistent_mapped();
        assert forall|d: int| #[trigger] self.is_dir(d) implies self.entries_lead(d) by {
            assert(self.inodes[d].allocated);
            assert(self.attached(d));
            assert(self.dir_tidy(d));
            if let Ok(es) = self.entries(self.inodes[d]) {
                assert forall|i: int| 0 <= i < es.len() && (#[trigger] es[i]).used implies {
                    &&& es[i].inode < self.inodes.len()
                    &&& self.inodes[es[i].inode as int].allocated
                } by {
                    assert(self.entry_tidy(es[i]));
                }
            }
        }
    }

    /// The inodes of a trail are in use.
    proof fn lemma_trail_in_use(self, trail: Seq<int>, i: int)
        requires
            self.orderly(),
            self.is_trail(trail),
            0 <= i < trail.len(),
        ensures
            0 <= trail[i] < self.inodes.len(),
            self.inodes[trail[i]].allocated,
        decreases i,
    {
        if i > 0 {
            self.lemma_trail_in_use(trail, i - 1);
            let d = trail[i - 1];
            let x = trail[i];
            assert(self.holds(d, x));
            assert(self.is_dir(d));
            let es = self.entries(self.inodes[d])->Ok_0;
            let p = choose|p: int| 0 <= p < es.len() && (#[trigger] es[p]).used && es[p].inode == x;
            assert(es[p].used);
        }
    }

    /// After a change of a file, what hung in the tree hangs there.
    proof fn lemma_file_changed_attached(self, img: ImageView, id: int, x: int)
        requires
            self.orderly(),
            self.file_changed(img, id),
            self.attached(x),
        ensures
            img.attached(x),
            0 <= x < self.inodes.len(),
            self.inodes[x].allocated,
    {
        let trail = choose|trail: Seq<int>| #[trigger] self.is_trail(trail) && trail.last() == x;
        self.lemma_trail_in_use(trail, trail.len() - 1);
        assert forall|i: int, j: int|
            0 <= i && j == i + 1 && j < trail.len() implies img.holds(
            #[trigger] trail[i],
            #[trigger] trail[j],
        ) by {
            assert(self.holds(trail[i], trail[j]));
            self.lemma_trail_in_use(trail, i);
            assert(self.keeps(img, trail[i]));
            self.lemma_keeps_entries(img, trail[i]);
        }
        assert(img.is_trail(trail));
    }

    /// A change of a file keeps an image clean.
    proof fn lemma_file_changed_clean(self, img: ImageView, id: int)
        requires
            self.clean(),
            self.file_changed(img, id),
            img.mapped(),
        ensures
            img.clean(),
    {
        self.lemma_clean_orderly();
        self.lemma_file_changed_orderly(img, id);
        assert(img.file_changed(self, id)) by {
            assert forall|i: int| 0 <= i < img.inodes.len() && i != id implies #[trigger] img.keeps(
                self,
                i,
            ) by {
                assert(self.keeps(img, i));
                if self.inodes[i].allocated {
                    self.lemma_keeps(img, i);
                    assert forall|s: int|
                        0 <= s < img.field_count() && #[trigger] img.field(i, s)
                            != NULL_BLOCK implies self.blocks[img.field(i, s) as int]
                        == img.blocks[img.field(i, s) as int] by {
                        assert(self.field(i, s) == img.field(i, s));
                    }
                }
            }
        }
        assert forall|d: int|
            0 <= d < img.inodes.len() && #[trigger] img.attached(d) && img.inodes[d].kind
                == FileKind::Directory implies img.dir_tidy(d) by {
            img.lemma_file_changed_attached(self, id, d);
            assert(self.keeps(img, d));
            assert(self.attached(d) && self.dir_tidy(d));
            self.lemma_keeps_entries(img, d);
            let es = self.entries(self.inodes[d])->Ok_0;
            assert forall|i: int| 0 <= i < es.len() && (#[trigger] es[i]).used implies img.entry_tidy(
                es[i],
            ) by {
                assert(self.entry_tidy(es[i]));
                if es[i].inode != id {
                    assert(self.keeps(img, es[i].inode as int));
                }
            }
        }
        assert forall|i: int|
            0 <= i < img.inodes.len() && (#[trigger] img.inodes[i]).allocated implies img.attached(
            i,
        ) by {
            if i != id {
                assert(self.keeps(img, i));
            }
            assert(self.inodes[i].allocated);
            self.lemma_file_changed_attached(img, id, i);
        }
        img.lemma_mapped_references();
    }
}

impl ImageView {
    /// The blocks of an inode in use lie inside the image.
    proof fn lemma_orderly_blocks(self, i: int)
        requires
            self.orderly(),
            0 <= i < self.inodes.len(),
            self.inodes[i].allocated,
        ensures
            self.pointers_readable(self.inodes[i]),
            forall|k: int| k >= 0 ==> #[trigger] self.block_readable(self.inodes[i], k),
    {
        assert(self.is_field(i, DIRECT_POINTERS as int));
        assert(self.field(i, DIRECT_POINTERS as int) == self.inodes[i].indirect);
        assert forall|k: int| k >= 0 implies #[trigger] self.block_readable(self.inodes[i], k) by {
            self.lemma_pointer_bound(i, k);
        }
    }

    /// Following names stays inside the image.
    proof fn lemma_orderly_resolve(self, parts: Seq<Seq<char>>)
        requires
            self.orderly(),
        ensures
            self.resolve_readable(parts),
        decreases parts.len(),
    {
        self.lemma_resolve_in_use(parts);
        if parts.len() > 0 {
            let head = parts.drop_last();
            self.lemma_orderly_resolve(head);
            self.lemma_resolve_in_use(head);
            if let Ok(d) = self.resolve(head) {
                self.lemma_orderly_blocks(d as int);
            }
        }
    }

    /// A write keeps an image clean.
    pub proof fn lemma_write_clean(self, path: Seq<char>, data: Seq<u8>)
        requires
            self.clean(),
        ensures
            self.write(path, data).0.clean(),
    {
        self.lemma_clean_orderly();
        if let Ok(id) = self.lookup(path) {
            self.lemma_resolve_in_use(split(path)->Ok_0);
            if self.kind(id) == FileKind::File {
                self.lemma_write_file(id, data);
                self.lemma_file_changed_clean(self.write(path, data).0, id as int);
            }
        }
    }
}

/// In an image that the consistency check finds clean, looking at any path and
/// writing to it stays inside the image.
pub proof fn law_clean_stays_inside(img: ImageView, path: Seq<char>)
    requires
        img.clean(),
    ensures
        img.can_stat(path),
        img.can_read(path),
        img.can_readdir(path),
        img.can_write(path),
{
    img.lemma_clean_orderly();
    if let Ok(parts) = split(path) {
        img.lemma_orderly_resolve(parts);
        img.lemma_resolve_in_use(parts);
        if let Ok(id) = img.resolve(parts) {
            img.lemma_orderly_blocks(id as int);
            if img.kind(id) == FileKind::Directory {
                assert(img.is_dir(id as int));
            }
        }
    }
}

/// What a successful write leaves behind on an image that the consistency check
/// finds clean: the file reads as the data and shows its size and the blocks
/// that it needs, whatever it held before, and the image is clean again.
pub proof fn law_clean_write(img: ImageView, path: Seq<char>, data: Seq<u8>)
    requires
        img.clean(),
        img.stat(path) matches Ok(st) && st.kind == FileKind::File,
        img.write(path, data).1 is Ok,
    ensures
        ({
            let (after, r) = img.write(path, data);
            &&& r == Ok::<nat, ErrorView>(data.len())
            &&& after.read(path) == Ok::<Seq<u8>, ErrorView>(data)
            &&& after.stat(path) is Ok
            &&& after.stat(path)->Ok_0.size == data.len()
            &&& after.stat(path)->Ok_0.blocks == blocks_needed(data.len() as int, img.bs())
            &&& after.clean()
            &&& after.issues().len() == 0
        }),
{
    let id: u32 = img.lookup(path)->Ok_0;
    let after = img.write(path, data).0;
    img.lemma_clean_orderly();
    img.lemma_resolve_in_use(split(path)->Ok_0);
    law_read_after_write(img, path, data);
    law_write_outcome(img, path, data);
    img.lemma_write_file(id, data);
    img.lemma_file_changed_clean(after, id as int);
    law_check_clean(after);
}

/// What a failed write leaves behind on an image that the consistency check
/// finds clean: the old contents are gone, no partial contents show, and the
/// image is clean again.
pub proof fn law_clean_failed_write(img: ImageView, path: Seq<char>, data: Seq<u8>)
    requires
        img.clean(),
        img.stat(path) matches Ok(st) && st.kind == FileKind::File,
        img.write(path, data).1 is Err,
    ensures
        ({
            let (after, r) = img.write(path, data);
            &&& r == Err::<nat, ErrorView>(
                if data.len() > largest_file(img.bs()) {
                    ErrorView::FileTooLarge
                } else {
                    ErrorView::OutOfSpace
                },
            )
            &&& after.read(path) == Ok::<Seq<u8>, ErrorView>(Seq::empty())
            &&& after.stat(path) is Ok
            &&& after.stat(path)->Ok_0.size == 0
            &&& after.clean()
            &&& after.issues().len() == 0
        }),
{
    let id: u32 = img.lookup(path)->Ok_0;
    let after = img.write(path, data).0;
    img.lemma_clean_orderly();
    img.lemma_resolve_in_use(split(path)->Ok_0);
    law_write_outcome(img, path, data);
    img.lemma_write_file(id, data);
    img.lemma_file_changed_lookup(after, id as int, path);
    img.lemma_file_changed_clean(after, id as int);
    law_check_clean(after);
}

/// A write, successful or not, on an image that the consistency check finds
/// clean leaves every other path as it was.
pub proof fn law_clean_write_elsewhere(
    img: ImageView,
    path: Seq<char>,
    data: Seq<u8>,
    q: Seq<char>,
)
    requires
        img.clean(),
        img.lookup(q) != img.lookup(path) || img.lookup(q) is Err,
    ensures
        img.write(path, data).0.read(q) == img.read(q),
        img.write(path, data).0.stat(q) == img.stat(q),
        img.write(path, data).0.readdir(q) == img.readdir(q),
{
    img.lemma_clean_orderly();
    law_write_keeps_others(img, path, data, q);
}

} // verus!
