//! The consistency check.

use vstd::prelude::*;
use crate::block::{DirEntry, INODE_COUNT};
use crate::fs::dirs::entry_views;
use crate::fs::{Fs, FsckReport};
use crate::inode::{FileKind, InodeId};
use crate::laws::check::{law_check_clean, law_healthy_clean};
use crate::model::check::{lemma_unseen, lemma_unseen_bound, no_walk, unseen, WalkView};
use crate::model::image::names_block;
use crate::model::owner::lemma_names_push;
use crate::path::texts;
use crate::text::{decimal, decimal_text, joined};

verus! {

/// The state of a walk that has come to `seen` and found `issues`.
pub open spec fn walk_view(seen: Seq<bool>, issues: Seq<String>) -> WalkView {
    WalkView { seen, issues: texts(issues) }
}

/// Exactly the blocks that `ptrs` names have a count, in a table of `n`.
pub open spec fn counted(counts: Seq<u8>, n: nat, ptrs: Seq<u32>) -> bool {
    &&& counts.len() == n
    &&& forall|b: int|
        0 <= b < n ==> (#[trigger] counts[b] > 0 <==> names_block(ptrs, b))
}

/// Returns the text made of `head`, the number `n` and `tail`.
fn numbered(head: &str, n: u64, tail: &str) -> (text: String)
    ensures
        text@ == head@ + decimal(n as nat) + tail@,
{
    joined(joined(head, decimal_text(n).as_str()).as_str(), tail)
}

impl FsckReport {
    /// Adds an issue.
    fn note(&mut self, issue: String)
        ensures
            texts(final(self).issues@) == texts(old(self).issues@).push(issue@),
    {
        let ghost grown = self.issues@.push(issue);
        assert(texts(grown) =~= texts(self.issues@).push(issue@));
        self.issues.push(issue);
    }
}

impl Fs {
    /// Reports an entry that names no inode in use, in a table of `count`.
    fn visit_entry(&self, entry: &DirEntry, count: usize, report: &mut FsckReport)
        requires
            self@.inodes.len() == count,
        ensures
            forall|seen: Seq<bool>|
                seen.len() == count ==> walk_view(seen, final(report).issues@)
                    == #[trigger] self@.visit(entry@, walk_view(seen, old(report).issues@)),
    {
        if entry.inode as usize >= count {
            report.note(numbered("directory entry points to invalid inode ", entry.inode as u64, ""));
            proof {
                reveal_strlit("");
                let head = "directory entry points to invalid inode "@ + decimal(
                    entry.inode as nat,
                );
                assert(head + ""@ =~= head);
            }
        } else {
            assert(self@.inodes[entry.inode as int] == self.image.inodes@[entry.inode as int]@);
            if !self.image.inodes[entry.inode as usize].allocated {
                let named: String = joined("entry '", entry.name.as_str());
                report.note(joined(named.as_str(), "' points at unallocated inode"));
            }
        }
    }

    /// Walks the tree below `dir`: marks the inodes that it comes to in `seen`
    /// and reports entries that lead nowhere.
    fn walk_reachable(
        &self,
        dir: InodeId,
        seen: &mut Vec<bool>,
        report: &mut FsckReport,
        Ghost(depth): Ghost<nat>,
    )
        requires
            self@.shaped(),
            old(seen)@.len() == INODE_COUNT,
            unseen(old(seen)@, INODE_COUNT as int) < depth,
            self@.walk_readable(
                old(seen)@,
                self@.walk(depth, dir, walk_view(old(seen)@, old(report).issues@)).seen,
            ),
        ensures
            walk_view(final(seen)@, final(report).issues@) == self@.walk(
                depth,
                dir,
                walk_view(old(seen)@, old(report).issues@),
            ),
            unseen(final(seen)@, INODE_COUNT as int) <= unseen(old(seen)@, INODE_COUNT as int),
        decreases depth,
    {
        let ghost start = walk_view(seen@, report.issues@);
        if dir as usize >= seen.len() || seen[dir as usize] {
            return;
        }
        proof {
            lemma_unseen(seen@, dir as int, INODE_COUNT as int);
        }
        seen[dir as usize] = true;
        let ghost entered = walk_view(seen@, report.issues@);
        assert(entered =~= start.with_seen(dir as int));
        assert(self@.inodes[dir as int] == self.image.inodes@[dir as int]@);
        if self.image.inodes[dir as usize].kind != FileKind::Directory {
            return;
        }
        proof {
            self@.lemma_walk_grows(depth, dir, start);
            if let Ok(es) = self@.entries(self@.inodes[dir as int]) {
                self@.lemma_walk_entries_grows((depth - 1) as nat, es, es.len(), entered);
            }
            assert(self@.walk(depth, dir, start).seen[dir as int]);
        }
        let entries: Vec<DirEntry> = match self.iter_dir_entries(dir) {
            Ok(es) => es,
            Err(e) => {
                let place: String = numbered("failed to read directory inode ", dir as u64, ": ");
                report.note(joined(place.as_str(), e.message().as_str()));
                return;
            },
        };
        let ghost es = entry_views(entries@);
        let mut i: usize = 0;
        while i < entries.len()
            invariant
                self@.shaped(),
                i <= entries.len(),
                es == entry_views(entries@),
                depth > 0,
                seen@.len() == INODE_COUNT == entered.seen.len(),
                unseen(seen@, INODE_COUNT as int) < depth - 1,
                unseen(seen@, INODE_COUNT as int) < unseen(start.seen, INODE_COUNT as int),
                start.seen == old(seen)@,
                entered == start.with_seen(dir as int),
                dir < start.seen.len(),
                walk_view(seen@, report.issues@) == self@.walk_entries(
                    (depth - 1) as nat,
                    es,
                    i as nat,
                    entered,
                ),
                self@.walk(depth, dir, start) == self@.walk_entries(
                    (depth - 1) as nat,
                    es,
                    es.len(),
                    entered,
                ),
                self@.walk_readable(start.seen, self@.walk(depth, dir, start).seen),
            decreases entries.len() - i,
        {
            let entry: &DirEntry = &entries[i];
            assert(entry@ == es[i as int]);
            let ghost before = walk_view(seen@, report.issues@);
            i = i + 1;
            if entry.used {
                self.visit_entry(entry, seen.len(), report);
                proof {
                    assert(walk_view(seen@, report.issues@) =~= self@.visit(entry@, before));
                    self@.lemma_walk_entries_prefix(
                        (depth - 1) as nat,
                        es,
                        i as nat,
                        es.len(),
                        entered,
                    );
                    self@.lemma_walk_entries_grows((depth - 1) as nat, es, (i - 1) as nat, entered);
                    let all = self@.walk(depth, dir, start).seen;
                    let next = self@.walk_entries((depth - 1) as nat, es, i as nat, entered).seen;
                    assert forall|d: int|
                        0 <= d < next.len() && #[trigger] next[d] && !before.seen[d]
                            && self@.inodes[d].kind
                            == FileKind::Directory implies self@.scan_readable(
                        self@.inodes[d],
                    ) by {
                        assert(all[d]);
                        if start.seen[d] {
                            assert(entered.seen[d]);
                            assert(before.seen[d]);
                        }
                    }
                }
                self.walk_reachable(entry.inode, seen, report, Ghost((depth - 1) as nat));
            }
        }
    }

    /// Checks the pointers `ptrs` of inode `id` against the bitmap and against
    /// the pointers before them, whose blocks have a count in `counts`.
    fn check_pointers(
        &self,
        id: u32,
        ptrs: &Vec<u32>,
        counts: &mut Vec<u8>,
        report: &mut FsckReport,
        Ghost(before): Ghost<Seq<u32>>,
    )
        requires
            counted(old(counts)@, self@.bitmap.len(), before),
        ensures
            counted(final(counts)@, self@.bitmap.len(), before + ptrs@),
            texts(final(report).issues@) == texts(old(report).issues@) + self@.pointers_issues(
                id as int,
                before,
                ptrs@,
                ptrs@.len() as int,
            ),
    {
        let mut k: usize = 0;
        let ghost found = texts(report.issues@);
        assert(before + ptrs@.take(0) =~= before);
        assert(found + Seq::<Seq<char>>::empty() =~= found);
        while k < ptrs.len()
            invariant
                k <= ptrs.len(),
                counted(counts@, self@.bitmap.len(), before + ptrs@.take(k as int)),
                texts(report.issues@) == found + self@.pointers_issues(
                    id as int,
                    before,
                    ptrs@,
                    k as int,
                ),
            decreases ptrs.len() - k,
        {
            let blk: u32 = ptrs[k];
            let ghost earlier = before + ptrs@.take(k as int);
            let ghost known = found + self@.pointers_issues(id as int, before, ptrs@, k as int);
            let ghost news = self@.pointer_issues(id as int, earlier, blk);
            proof {
                assert(before + ptrs@.take(k + 1) =~= earlier.push(blk));
                assert forall|b: int| #[trigger]
                    names_block(earlier.push(blk), b) <==> names_block(earlier, b) || blk == b by {
                    lemma_names_push(earlier, blk, b);
                }
                assert(known + news =~= found + self@.pointers_issues(
                    id as int,
                    before,
                    ptrs@,
                    k + 1,
                ));
            }
            if blk as usize >= counts.len() {
                report.note(numbered("inode ", id as u64, " points outside data area"));
                assert(texts(report.issues@) =~= known + news);
            } else {
                if counts[blk as usize] > 0 {
                    report.note(numbered("block ", blk as u64, " referenced multiple times"));
                }
                counts[blk as usize] = counts[blk as usize].saturating_add(1);
                assert(self.image.bitmap@ == self@.bitmap);
                if !self.image.bitmap[blk as usize] {
                    report.note(numbered("block ", blk as u64, " used but bitmap marks free"));
                }
                assert(texts(report.issues@) =~= known + news);
            }
            k = k + 1;
        }
        assert(ptrs@.take(ptrs@.len() as int) =~= ptrs@);
    }

    /// Reports the blocks that are marked used and have no count in `counts`.
    fn check_bitmap(&self, counts: &Vec<u8>, report: &mut FsckReport)
        requires
            self@.bitmap.len() == self@.sb.num_blocks,
            counted(counts@, self@.bitmap.len(), self@.references(INODE_COUNT as int)),
        ensures
            texts(final(report).issues@) == texts(old(report).issues@) + self@.bitmap_issues(
                self@.bitmap.len() as int,
            ),
    {
        let ghost found = texts(report.issues@);
        assert(self.image.bitmap@ == self@.bitmap);
        assert(found + Seq::<Seq<char>>::empty() =~= found);
        let mut i: usize = 0;
        while i < self.image.bitmap.len()
            invariant
                i <= self@.bitmap.len(),
                self.image.bitmap@ == self@.bitmap,
                counted(counts@, self@.bitmap.len(), self@.references(INODE_COUNT as int)),
                texts(report.issues@) == found + self@.bitmap_issues(i as int),
            decreases self@.bitmap.len() - i,
        {
            if self.image.bitmap[i] && counts[i] == 0 {
                let ghost known = self@.bitmap_issues(i as int);
                report.note(numbered("block ", i as u64, " marked used but unreferenced"));
                assert(texts(report.issues@) =~= found + self@.bitmap_issues(i + 1));
            }
            i = i + 1;
        }
    }

    /// Walks every inode and reports inconsistencies — bitmap mismatches,
    /// double-allocated blocks, orphaned inodes, and so on.
    pub fn fsck(&self) -> (report: FsckReport)
        requires
            self@.in_range() || self@.can_check(),
        ensures
            texts(report.issues@) == self@.issues(),
            report.issues@.len() == 0 <==> self@.consistent(),
            self@.healthy() ==> report.issues@.len() == 0,
    {
        proof {
            if self@.healthy() {
                law_healthy_clean(self@);
            }
            if self@.in_range() {
                self@.lemma_can_check();
            }
        }
        let mut report: FsckReport = FsckReport::default();
        let mut counts: Vec<u8> = vec![0u8; self.image.sb.num_blocks as usize];
        let mut reachable: Vec<bool> = vec![false; INODE_COUNT];
        proof {
            assert(walk_view(reachable@, report.issues@) =~= no_walk());
            lemma_unseen_bound(reachable@, INODE_COUNT as int);
        }
        self.walk_reachable(
            0,
            &mut reachable,
            &mut report,
            Ghost((INODE_COUNT + 1) as nat),
        );
        let ghost w = self@.walked();
        proof {
            self@.lemma_walk_grows((INODE_COUNT + 1) as nat, 0, no_walk());
            assert(w.issues + self@.table_issues(w.seen, 0) =~= w.issues);
        }
        let mut id: usize = 0;
        while id < INODE_COUNT
            invariant
                id <= INODE_COUNT,
                self@.can_check(),
                w == self@.walked(),
                reachable@ == w.seen,
                reachable@.len() == INODE_COUNT,
                counted(counts@, self@.bitmap.len(), self@.references(id as int)),
                texts(report.issues@) == w.issues + self@.table_issues(w.seen, id as int),
            decreases INODE_COUNT - id,
        {
            assert(self@.inodes[id as int] == self.image.inodes@[id as int]@);
            let ghost known = texts(report.issues@);
            if self.image.inodes[id].allocated {
                if !reachable[id] && id != 0 {
                    report.note(numbered("inode ", id as u64, " allocated but unreachable"));
                }
                assert(texts(report.issues@) =~= known + self@.orphan_issues(id as int, w.seen));
                let ptrs: Vec<u32> = self.image.gather_pointers(id as u32);
                self.check_pointers(
                    id as u32,
                    &ptrs,
                    &mut counts,
                    &mut report,
                    Ghost(self@.references(id as int)),
                );
            } else {
                assert(self@.references(id + 1) =~= self@.references(id as int));
            }
            assert(texts(report.issues@) =~= w.issues + self@.table_issues(w.seen, id + 1));
            id = id + 1;
        }
        self.check_bitmap(&counts, &mut report);
        proof {
            law_check_clean(self@);
            assert(texts(report.issues@).len() == report.issues@.len());
        }
        report
    }
}

} // verus!
