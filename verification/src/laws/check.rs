//! What a clean consistency check means, and when it is clean.

use vstd::prelude::*;
use crate::block::INODE_COUNT;
use crate::inode::{FileKind, NULL_BLOCK};
use crate::model::check::{lemma_unseen, lemma_unseen_bound, no_walk, unseen, WalkView};
use crate::model::dir::position_from;
use crate::model::entry::EntryView;
use crate::model::image::{live, names_block, ImageView};
use crate::model::owner::lemma_live_names;
use crate::model::range::lemma_first_named;

verus! {

/// The more inodes were seen, the fewer are left.
proof fn lemma_unseen_monotone(before: Seq<bool>, after: Seq<bool>, n: int)
    requires
        before.len() == after.len(),
        0 <= n <= before.len(),
        forall|d: int| 0 <= d < n && before[d] ==> #[trigger] after[d],
    ensures
        unseen(after, n) <= unseen(before, n),
    decreases n,
{
    if n > 0 {
        lemma_unseen_monotone(before, after, n - 1);
        assert(before[n - 1] ==> after[n - 1]);
    }
}

/// One of the first `n` entries is in use and names inode `x`.
pub open spec fn names_inode(es: Seq<EntryView>, n: int, x: int) -> bool {
    exists|i: int| 0 <= i < n && (#[trigger] es[i]).used && es[i].inode == x
}

impl ImageView {
    /// The directory `d` can be read and holds an entry in use for inode `x`.
    pub open spec fn holds(self, d: int, x: int) -> bool {
        &&& 0 <= d < self.inodes.len()
        &&& 0 <= x < self.inodes.len()
        &&& self.inodes[d].kind == FileKind::Directory
        &&& (self.entries(self.inodes[d]) matches Ok(es) && names_inode(es, es.len() as int, x))
    }

    /// A trail through the tree: it starts at the root, and every inode on it
    /// holds the next one.
    pub open spec fn is_trail(self, trail: Seq<int>) -> bool {
        &&& trail.len() > 0
        &&& trail[0] == 0
        &&& forall|i: int, j: int|
            0 <= i && j == i + 1 && j < trail.len() ==> self.holds(
                #[trigger] trail[i],
                #[trigger] trail[j],
            )
    }

    /// A trail leads to inode `x`.
    pub open spec fn attached(self, x: int) -> bool {
        exists|trail: Seq<int>| #[trigger] self.is_trail(trail) && trail.last() == x
    }

    /// The entry `e` names an inode in use.
    pub open spec fn entry_tidy(self, e: EntryView) -> bool {
        e.inode < self.inodes.len() && self.inodes[e.inode as int].allocated
    }

    /// The directory `d` can be read, and its entries in use name inodes in use.
    pub open spec fn dir_tidy(self, d: int) -> bool {
        self.entries(self.inodes[d]) matches Ok(es) && forall|i: int|
            0 <= i < es.len() && (#[trigger] es[i]).used ==> self.entry_tidy(es[i])
    }

    /// The pointers `ptrs` lead to different blocks of the image, all of them
    /// marked used.
    pub open spec fn pointers_tidy(self, ptrs: Seq<u32>) -> bool {
        forall|p: int|
            0 <= p < ptrs.len() ==> {
                &&& (#[trigger] ptrs[p]) < self.bitmap.len()
                &&& self.bitmap[ptrs[p] as int]
                &&& !names_block(ptrs.take(p), ptrs[p] as int)
            }
    }

    /// The image is consistent. The directories of the tree can be read and
    /// name inodes in use; every inode in use hangs in the tree; the pointers
    /// in use lead to different blocks, which are the blocks marked used.
    pub open spec fn consistent(self) -> bool {
        let refs = self.references(INODE_COUNT as int);
        &&& forall|d: int|
            0 <= d < self.inodes.len() && #[trigger] self.attached(d) && self.inodes[d].kind
                == FileKind::Directory ==> self.dir_tidy(d)
        &&& forall|i: int|
            0 <= i < self.inodes.len() && (#[trigger] self.inodes[i]).allocated ==> self.attached(
                i,
            )
        &&& self.pointers_tidy(refs)
        &&& forall|b: int|
            0 <= b < self.bitmap.len() && #[trigger] self.bitmap[b] ==> names_block(refs, b)
    }

    /// The root is attached.
    proof fn lemma_root_attached(self)
        ensures
            self.attached(0),
    {
        assert(self.is_trail(seq![0int]));
        assert(seq![0int].last() == 0);
    }

    /// What an attached directory holds is attached.
    proof fn lemma_attached_step(self, d: int, x: int)
        requires
            self.attached(d),
            self.holds(d, x),
        ensures
            self.attached(x),
    {
        let trail = choose|trail: Seq<int>| #[trigger] self.is_trail(trail) && trail.last() == d;
        let longer = trail.push(x);
        assert forall|i: int, j: int|
            0 <= i && j == i + 1 && j < longer.len() implies self.holds(
            #[trigger] longer[i],
            #[trigger] longer[j],
        ) by {
            if j < trail.len() {
                assert(self.holds(trail[i], trail[j]));
            }
        }
        assert(self.is_trail(longer));
        assert(longer.last() == x);
    }

    /// A walk comes to the inode that it starts from, and to everything that
    /// the directories hold that it newly came to.
    proof fn lemma_walk_closed(self, depth: nat, dir: u32, w: WalkView)
        requires
            self.inodes.len() == INODE_COUNT,
            w.seen.len() == INODE_COUNT,
            unseen(w.seen, INODE_COUNT as int) < depth,
        ensures
            ({
                let w2 = self.walk(depth, dir, w);
                &&& w2.seen.len() == INODE_COUNT
                &&& unseen(w2.seen, INODE_COUNT as int) <= unseen(w.seen, INODE_COUNT as int)
                &&& dir < INODE_COUNT ==> w2.seen[dir as int]
                &&& forall|d: int, x: int|
                    0 <= d < INODE_COUNT && w2.seen[d] && !w.seen[d] && #[trigger] self.holds(d, x)
                        ==> w2.seen[x]
            }),
        decreases depth, 0nat,
    {
        let n = INODE_COUNT as int;
        let w2 = self.walk(depth, dir, w);
        self.lemma_walk_grows(depth, dir, w);
        lemma_unseen_monotone(w.seen, w2.seen, n);
        if dir < w.seen.len() && !w.seen[dir as int] {
            let entered = w.with_seen(dir as int);
            lemma_unseen(w.seen, dir as int, n);
            if self.inodes[dir as int].kind == FileKind::Directory {
                if let Ok(es) = self.entries(self.inodes[dir as int]) {
                    let less = (depth - 1) as nat;
                    self.lemma_walk_entries_closed(less, es, es.len(), entered);
                    self.lemma_walk_entries_grows(less, es, es.len(), entered);
                    assert(entered.seen[dir as int]);
                    assert(w2.seen[dir as int]);
                    assert forall|d: int, x: int|
                        0 <= d < n && w2.seen[d] && !w.seen[d] && #[trigger] self.holds(
                            d,
                            x,
                        ) implies w2.seen[x] by {
                        if d == dir {
                            let i = choose|i: int|
                                0 <= i < es.len() && (#[trigger] es[i]).used && es[i].inode == x;
                            assert(w2.seen[es[i].inode as int]);
                        } else {
                            assert(!entered.seen[d]);
                        }
                    }
                }
            }
        }
    }

    /// A walk through entries comes to the inodes that they name, and to
    /// everything that the directories hold that it newly came to.
    proof fn lemma_walk_entries_closed(
        self,
        depth: nat,
        es: Seq<EntryView>,
        n: nat,
        w: WalkView,
    )
        requires
            self.inodes.len() == INODE_COUNT,
            w.seen.len() == INODE_COUNT,
            unseen(w.seen, INODE_COUNT as int) < depth,
            n <= es.len(),
        ensures
            ({
                let w2 = self.walk_entries(depth, es, n, w);
                &&& w2.seen.len() == INODE_COUNT
                &&& unseen(w2.seen, INODE_COUNT as int) <= unseen(w.seen, INODE_COUNT as int)
                &&& forall|i: int|
                    0 <= i < n && (#[trigger] es[i]).used && es[i].inode < INODE_COUNT
                        ==> w2.seen[es[i].inode as int]
                &&& forall|d: int, x: int|
                    0 <= d < INODE_COUNT && w2.seen[d] && !w.seen[d] && #[trigger] self.holds(d, x)
                        ==> w2.seen[x]
            }),
        decreases depth, n,
    {
        if n > 0 {
            let m = (n - 1) as nat;
            self.lemma_walk_entries_closed(depth, es, m, w);
            let before = self.walk_entries(depth, es, m, w);
            let e = es[n - 1];
            if e.used {
                let visited = self.visit(e, before);
                assert(visited.seen == before.seen);
                self.lemma_walk_closed(depth, e.inode, visited);
                self.lemma_walk_grows(depth, e.inode, visited);
                let w2 = self.walk_entries(depth, es, n, w);
                assert(w2 == self.walk(depth, e.inode, visited));
                assert forall|d: int, x: int|
                    0 <= d < INODE_COUNT && w2.seen[d] && !w.seen[d] && #[trigger] self.holds(
                        d,
                        x,
                    ) implies w2.seen[x] by {
                    if before.seen[d] {
                        assert(before.seen[x]);
                    }
                }
                assert forall|i: int|
                    0 <= i < n && (#[trigger] es[i]).used && es[i].inode < INODE_COUNT implies
                    w2.seen[es[i].inode as int] by {
                    if i < m {
                        assert(before.seen[es[i].inode as int]);
                    }
                }
            }
        }
    }

    /// A walk from an attached inode comes to attached inodes alone.
    proof fn lemma_walk_attached(self, depth: nat, dir: u32, w: WalkView)
        requires
            self.inodes.len() == INODE_COUNT,
            w.seen.len() == INODE_COUNT,
            dir < INODE_COUNT ==> self.attached(dir as int),
        ensures
            forall|d: int|
                0 <= d < INODE_COUNT && #[trigger] self.walk(depth, dir, w).seen[d] && !w.seen[d]
                    ==> self.attached(d),
        decreases depth, 0nat,
    {
        if depth > 0 && dir < w.seen.len() && !w.seen[dir as int] {
            let entered = w.with_seen(dir as int);
            if self.inodes[dir as int].kind == FileKind::Directory {
                if let Ok(es) = self.entries(self.inodes[dir as int]) {
                    assert forall|i: int|
                        0 <= i < es.len() && (#[trigger] es[i]).used && es[i].inode
                            < INODE_COUNT implies self.attached(es[i].inode as int) by {
                        assert(names_inode(es, es.len() as int, es[i].inode as int));
                        self.lemma_attached_step(dir as int, es[i].inode as int);
                    }
                    self.lemma_walk_entries_attached((depth - 1) as nat, es, es.len(), entered);
                    assert forall|d: int|
                        0 <= d < INODE_COUNT && #[trigger] self.walk(depth, dir, w).seen[d]
                            && !w.seen[d] implies self.attached(d) by {
                        if d != dir {
                            assert(!entered.seen[d]);
                            assert(self.walk_entries(
                                (depth - 1) as nat,
                                es,
                                es.len(),
                                entered,
                            ).seen[d]);
                        }
                    }
                }
            }
        }
    }

    /// A walk through entries that name attached inodes comes to attached
    /// inodes alone.
    proof fn lemma_walk_entries_attached(
        self,
        depth: nat,
        es: Seq<EntryView>,
        n: nat,
        w: WalkView,
    )
        requires
            self.inodes.len() == INODE_COUNT,
            w.seen.len() == INODE_COUNT,
            n <= es.len(),
            forall|i: int|
                0 <= i < es.len() && (#[trigger] es[i]).used && es[i].inode < INODE_COUNT
                    ==> self.attached(es[i].inode as int),
        ensures
            forall|d: int|
                0 <= d < INODE_COUNT && #[trigger] self.walk_entries(depth, es, n, w).seen[d]
                    && !w.seen[d] ==> self.attached(d),
        decreases depth, n,
    {
        if n > 0 {
            let m = (n - 1) as nat;
            self.lemma_walk_entries_attached(depth, es, m, w);
            self.lemma_walk_entries_grows(depth, es, m, w);
            let before = self.walk_entries(depth, es, m, w);
            let e = es[n - 1];
            if e.used {
                let visited = self.visit(e, before);
                assert(visited.seen == before.seen);
                self.lemma_walk_attached(depth, e.inode, visited);
                assert forall|d: int|
                    0 <= d < INODE_COUNT && #[trigger] self.walk_entries(depth, es, n, w).seen[d]
                        && !w.seen[d] implies self.attached(d) by {
                    if before.seen[d] {
                        assert(self.walk_entries(depth, es, m, w).seen[d]);
                    } else {
                        assert(self.walk(depth, e.inode, visited).seen[d]);
                    }
                }
            }
        }
    }

    /// A walk finds nothing exactly if the directories are tidy that it newly
    /// came to.
    proof fn lemma_walk_issues(self, depth: nat, dir: u32, w: WalkView)
        requires
            self.inodes.len() == INODE_COUNT,
            w.seen.len() == INODE_COUNT,
        ensures
            ({
                let w2 = self.walk(depth, dir, w);
                &&& w2.issues.len() >= w.issues.len()
                &&& unseen(w.seen, INODE_COUNT as int) < depth ==> (w2.issues.len()
                    == w.issues.len() <==> forall|d: int|
                    0 <= d < INODE_COUNT && #[trigger] w2.seen[d] && !w.seen[d]
                        && self.inodes[d].kind == FileKind::Directory ==> self.dir_tidy(d))
            }),
        decreases depth, 0nat,
    {
        let n = INODE_COUNT as int;
        let w2 = self.walk(depth, dir, w);
        if depth > 0 && dir < w.seen.len() && !w.seen[dir as int] {
            let entered = w.with_seen(dir as int);
            lemma_unseen(w.seen, dir as int, n);
            if self.inodes[dir as int].kind == FileKind::Directory {
                match self.entries(self.inodes[dir as int]) {
                    Ok(es) => {
                        let less = (depth - 1) as nat;
                        self.lemma_walk_entries_issues(less, es, es.len(), entered);
                        self.lemma_walk_entries_grows(less, es, es.len(), entered);
                        assert(entered.seen[dir as int]);
                        assert(w2.seen[dir as int]);
                        let tidy = forall|i: int|
                            0 <= i < es.len() && (#[trigger] es[i]).used ==> self.entry_tidy(es[i]);
                        assert(self.dir_tidy(dir as int) == tidy);
                        if unseen(w.seen, n) < depth {
                            if w2.issues.len() == w.issues.len() {
                                assert forall|d: int|
                                    0 <= d < n && #[trigger] w2.seen[d] && !w.seen[d]
                                        && self.inodes[d].kind
                                        == FileKind::Directory implies self.dir_tidy(d) by {
                                    if d != dir {
                                        assert(!entered.seen[d]);
                                    }
                                }
                            } else if forall|d: int|
                                0 <= d < n && #[trigger] w2.seen[d] && !w.seen[d]
                                    && self.inodes[d].kind == FileKind::Directory
                                    ==> self.dir_tidy(d) {
                                assert forall|d: int|
                                    0 <= d < n && #[trigger] w2.seen[d] && !entered.seen[d]
                                        && self.inodes[d].kind
                                        == FileKind::Directory implies self.dir_tidy(d) by {
                                    assert(!w.seen[d]);
                                }
                            }
                        }
                    },
                    Err(_) => {
                        assert(w2.seen[dir as int] && !w.seen[dir as int]);
                        assert(!self.dir_tidy(dir as int));
                    },
                }
            } else {
                assert forall|d: int|
                    0 <= d < n && #[trigger] w2.seen[d] && !w.seen[d] && self.inodes[d].kind
                        == FileKind::Directory implies self.dir_tidy(d) by {
                    assert(d == dir);
                }
            }
        }
    }

    /// A walk through entries finds nothing exactly if the entries are tidy and
    /// the directories that it newly came to.
    proof fn lemma_walk_entries_issues(
        self,
        depth: nat,
        es: Seq<EntryView>,
        n: nat,
        w: WalkView,
    )
        requires
            self.inodes.len() == INODE_COUNT,
            w.seen.len() == INODE_COUNT,
            n <= es.len(),
        ensures
            ({
                let w2 = self.walk_entries(depth, es, n, w);
                &&& w2.issues.len() >= w.issues.len()
                &&& unseen(w.seen, INODE_COUNT as int) < depth ==> (w2.issues.len()
                    == w.issues.len() <==> (forall|i: int|
                    0 <= i < n && (#[trigger] es[i]).used ==> self.entry_tidy(es[i])) && (forall|
                    d: int,
                |
                    0 <= d < INODE_COUNT && #[trigger] w2.seen[d] && !w.seen[d]
                        && self.inodes[d].kind == FileKind::Directory ==> self.dir_tidy(d)))
            }),
        decreases depth, n,
    {
        let count = INODE_COUNT as int;
        if n > 0 {
            let m = (n - 1) as nat;
            let w2 = self.walk_entries(depth, es, n, w);
            self.lemma_walk_entries_issues(depth, es, m, w);
            self.lemma_walk_entries_grows(depth, es, m, w);
            let before = self.walk_entries(depth, es, m, w);
            lemma_unseen_monotone(w.seen, before.seen, count);
            let e = es[n - 1];
            if e.used {
                let visited = self.visit(e, before);
                assert(visited.seen == before.seen);
                self.lemma_walk_issues(depth, e.inode, visited);
                self.lemma_walk_grows(depth, e.inode, visited);
                assert(w2 == self.walk(depth, e.inode, visited));
                assert(visited.issues.len() == before.issues.len() <==> self.entry_tidy(e));
                if unseen(w.seen, count) < depth {
                    let entries_tidy = forall|i: int|
                        0 <= i < n && (#[trigger] es[i]).used ==> self.entry_tidy(es[i]);
                    let dirs_tidy = forall|d: int|
                        0 <= d < count && #[trigger] w2.seen[d] && !w.seen[d]
                            && self.inodes[d].kind == FileKind::Directory ==> self.dir_tidy(d);
                    if w2.issues.len() == w.issues.len() {
                        assert forall|d: int|
                            0 <= d < count && #[trigger] w2.seen[d] && !w.seen[d]
                                && self.inodes[d].kind == FileKind::Directory implies self.dir_tidy(
                            d,
                        ) by {
                            if before.seen[d] {
                                assert(self.dir_tidy(d));
                            } else {
                                assert(!visited.seen[d]);
                            }
                        }
                    }
                    if entries_tidy && dirs_tidy {
                        assert(es[n - 1].used);
                        assert forall|d: int|
                            0 <= d < count && #[trigger] before.seen[d] && !w.seen[d]
                                && self.inodes[d].kind == FileKind::Directory implies self.dir_tidy(
                            d,
                        ) by {
                            assert(w2.seen[d]);
                        }
                        assert forall|d: int|
                            0 <= d < count && #[trigger] w2.seen[d] && !visited.seen[d]
                                && self.inodes[d].kind == FileKind::Directory implies self.dir_tidy(
                            d,
                        ) by {
                            assert(!w.seen[d]);
                        }
                    }
                }
            }
        }
    }

    /// The pointers of an inode are in order, behind pointers that are, exactly
    /// if nothing is found wrong with them.
    proof fn lemma_pointers_issues(self, id: int, before: Seq<u32>, ptrs: Seq<u32>, n: int)
        requires
            self.pointers_tidy(before),
            0 <= n <= ptrs.len(),
        ensures
            self.pointers_issues(id, before, ptrs, n).len() == 0 <==> self.pointers_tidy(
                before + ptrs.take(n),
            ),
        decreases n,
    {
        let all = before + ptrs.take(n);
        if n == 0 {
            assert(all =~= before);
        } else {
            self.lemma_pointers_issues(id, before, ptrs, n - 1);
            let head = before + ptrs.take(n - 1);
            let p = ptrs[n - 1];
            assert(all =~= head.push(p));
            assert(all.take(head.len() as int) =~= head);
            assert(all[head.len() as int] == p);
            if self.pointers_tidy(all) {
                assert forall|q: int| 0 <= q < head.len() implies {
                    &&& (#[trigger] head[q]) < self.bitmap.len()
                    &&& self.bitmap[head[q] as int]
                    &&& !names_block(head.take(q), head[q] as int)
                } by {
                    assert(all[q] == head[q]);
                    assert(all.take(q) =~= head.take(q));
                }
            }
            if self.pointers_tidy(head) && self.pointer_issues(id, head, p).len() == 0 {
                assert forall|q: int| 0 <= q < all.len() implies {
                    &&& (#[trigger] all[q]) < self.bitmap.len()
                    &&& self.bitmap[all[q] as int]
                    &&& !names_block(all.take(q), all[q] as int)
                } by {
                    if q < head.len() {
                        assert(all[q] == head[q]);
                        assert(all.take(q) =~= head.take(q));
                    }
                }
            }
        }
    }

    /// A beginning of pointers that are in order is in order.
    pub proof fn lemma_tidy_prefix(self, head: Seq<u32>, tail: Seq<u32>)
        requires
            self.pointers_tidy(head + tail),
        ensures
            self.pointers_tidy(head),
    {
        let all = head + tail;
        assert forall|q: int| 0 <= q < head.len() implies {
            &&& (#[trigger] head[q]) < self.bitmap.len()
            &&& self.bitmap[head[q] as int]
            &&& !names_block(head.take(q), head[q] as int)
        } by {
            assert(all[q] == head[q]);
            assert(all.take(q) =~= head.take(q));
        }
    }

    /// Nothing is wrong with the inodes exactly if those in use were seen and
    /// their pointers are in order.
    proof fn lemma_table_issues(self, seen: Seq<bool>, n: int)
        requires
            0 <= n,
        ensures
            self.table_issues(seen, n).len() == 0 <==> (forall|i: int|
                0 <= i < n && (#[trigger] self.inodes[i]).allocated ==> seen[i] || i == 0)
                && self.pointers_tidy(self.references(n)),
        decreases n,
    {
        if n > 0 {
            self.lemma_table_issues(seen, n - 1);
            let before = self.references(n - 1);
            let ptrs = self.gather(n - 1);
            assert(ptrs.take(ptrs.len() as int) =~= ptrs);
            if self.pointers_tidy(before) {
                self.lemma_pointers_issues(n - 1, before, ptrs, ptrs.len() as int);
            }
            if self.pointers_tidy(self.references(n)) {
                self.lemma_tidy_prefix(before, ptrs);
            }
            assert(self.inodes[n - 1].allocated && !seen[n - 1] && n - 1 != 0
                <==> self.orphan_issues(n - 1, seen).len() > 0);
        }
    }

    /// Nothing is wrong with the bitmap exactly if every block marked used is
    /// referred to.
    proof fn lemma_bitmap_issues(self, n: int)
        requires
            0 <= n,
        ensures
            self.bitmap_issues(n).len() == 0 <==> forall|b: int|
                0 <= b < n && #[trigger] self.bitmap[b] ==> names_block(
                    self.references(INODE_COUNT as int),
                    b,
                ),
        decreases n,
    {
        if n > 0 {
            self.lemma_bitmap_issues(n - 1);
            if self.bitmap_issues(n).len() == 0 {
                assert forall|b: int| 0 <= b < n && #[trigger] self.bitmap[b] implies names_block(
                    self.references(INODE_COUNT as int),
                    b,
                ) by {}
            }
        }
    }

    /// The walk through the whole tree comes to the attached inodes.
    pub proof fn lemma_walked(self)
        requires
            self.inodes.len() == INODE_COUNT,
        ensures
            self.walked().seen.len() == INODE_COUNT,
            forall|d: int| #![trigger self.walked().seen[d]] #![trigger self.attached(d)]
                0 <= d < INODE_COUNT ==> (self.walked().seen[d] <==> self.attached(d)),
    {
        let depth = (INODE_COUNT + 1) as nat;
        let w = no_walk();
        lemma_unseen_bound(w.seen, INODE_COUNT as int);
        self.lemma_walk_closed(depth, 0, w);
        self.lemma_root_attached();
        self.lemma_walk_attached(depth, 0, w);
        assert forall|d: int|
            #![trigger self.walked().seen[d]]
            #![trigger self.attached(d)]
            0 <= d < INODE_COUNT implies (self.walked().seen[d] <==> self.attached(d)) by {
            if self.attached(d) {
                let trail = choose|trail: Seq<int>| #[trigger] self.is_trail(trail) && trail.last()
                    == d;
                self.lemma_trail_seen(trail, trail.len() - 1);
            }
            assert(!w.seen[d]);
        }
    }

    /// The walk comes to every inode of a trail.
    proof fn lemma_trail_seen(self, trail: Seq<int>, i: int)
        requires
            self.inodes.len() == INODE_COUNT,
            self.is_trail(trail),
            0 <= i < trail.len(),
            self.walked().seen.len() == INODE_COUNT,
            self.walked().seen[0],
            forall|d: int, x: int|
                0 <= d < INODE_COUNT && self.walked().seen[d] && !no_walk().seen[d]
                    && #[trigger] self.holds(d, x) ==> self.walked().seen[x],
        ensures
            0 <= trail[i] < INODE_COUNT,
            self.walked().seen[trail[i]],
        decreases i,
    {
        if i > 0 {
            self.lemma_trail_seen(trail, i - 1);
            assert(self.holds(trail[i - 1], trail[i]));
        }
    }

    /// What names lead to is attached.
    proof fn lemma_resolve_attached(self, parts: Seq<Seq<char>>)
        requires
            self.sound(),
        ensures
            self.resolve(parts) matches Ok(x) ==> self.attached(x as int),
        decreases parts.len(),
    {
        if parts.len() == 0 {
            self.lemma_root_attached();
        } else {
            let head = parts.drop_last();
            self.lemma_resolve_attached(head);
            self.lemma_resolve_allocated(head);
            self.lemma_resolve_allocated(parts);
            if let Ok(d) = self.resolve(head) {
                if let Ok(x) = self.resolve(parts) {
                    let es = self.entries(self.inodes[d as int])->Ok_0;
                    lemma_first_named(es, parts.last(), 0);
                    let p = position_from(es, parts.last(), 0);
                    assert(es[p].used && es[p].inode == x);
                    assert(names_inode(es, es.len() as int, x as int));
                    self.lemma_attached_step(d as int, x as int);
                }
            }
        }
    }

    /// The pointers of an inode whose fields differ are different.
    proof fn lemma_live_distinct(self, s: Seq<u32>)
        requires
            forall|i: int, j: int|
                0 <= i < s.len() && 0 <= j < s.len() && #[trigger] s[i] == #[trigger] s[j] && s[i]
                    != NULL_BLOCK ==> i == j,
            forall|i: int|
                0 <= i < s.len() && #[trigger] s[i] != NULL_BLOCK ==> s[i] < self.bitmap.len()
                    && self.bitmap[s[i] as int],
        ensures
            self.pointers_tidy(live(s)),
        decreases s.len(),
    {
        if s.len() > 0 {
            let head = s.drop_last();
            let p = s.last();
            assert forall|i: int, j: int|
                0 <= i < head.len() && 0 <= j < head.len() && #[trigger] head[i]
                    == #[trigger] head[j] && head[i] != NULL_BLOCK implies i == j by {
                assert(s[i] == head[i] && s[j] == head[j]);
            }
            assert forall|i: int| 0 <= i < head.len() && #[trigger] head[i] != NULL_BLOCK implies
                head[i] < self.bitmap.len() && self.bitmap[head[i] as int] by {
                assert(s[i] == head[i]);
            }
            self.lemma_live_distinct(head);
            if p != NULL_BLOCK {
                assert(s[s.len() - 1] == p);
                lemma_live_names(head, p as int);
                if names_block(head, p as int) {
                    let j = choose|j: int| 0 <= j < head.len() && #[trigger] head[j] == p;
                    assert(s[j] == p);
                }
                self.lemma_tidy_push(live(head), p);
            }
        }
    }

    /// One more pointer that is in order.
    proof fn lemma_tidy_push(self, ptrs: Seq<u32>, p: u32)
        requires
            self.pointers_tidy(ptrs),
            p < self.bitmap.len(),
            self.bitmap[p as int],
            !names_block(ptrs, p as int),
        ensures
            self.pointers_tidy(ptrs.push(p)),
    {
        let all = ptrs.push(p);
        assert forall|q: int| 0 <= q < all.len() implies {
            &&& (#[trigger] all[q]) < self.bitmap.len()
            &&& self.bitmap[all[q] as int]
            &&& !names_block(all.take(q), all[q] as int)
        } by {
            if q < ptrs.len() {
                assert(all[q] == ptrs[q]);
                assert(all.take(q) =~= ptrs.take(q));
            } else {
                assert(all.take(q) =~= ptrs);
            }
        }
    }

    /// Where pointers and bitmap agree, the pointers of each inode are in order.
    pub proof fn lemma_gather_tidy(self, i: int)
        requires
            self.mapped(),
            0 <= i < self.inodes.len(),
        ensures
            self.pointers_tidy(self.gather(i)),
    {
        let node = self.inodes[i];
        if node.allocated {
            let fields = self.pointer_fields(node);
            assert forall|s: int| 0 <= s < fields.len() implies {
                &&& #[trigger] fields[s] == self.field(i, s)
                &&& self.is_field(i, s)
            } by {}
            assert forall|s: int, t: int|
                0 <= s < fields.len() && 0 <= t < fields.len() && #[trigger] fields[s]
                    == #[trigger] fields[t] && fields[s] != NULL_BLOCK implies s == t by {
                assert(self.field(i, s) == self.field(i, t));
            }
            self.lemma_live_distinct(fields);
        }
    }

    /// A block is referred to if an inode owns it.
    pub proof fn lemma_references(self, n: int, b: int)
        requires
            self.shaped(),
            0 <= n <= self.inodes.len(),
        ensures
            names_block(self.references(n), b) <==> exists|i: int|
                0 <= i < n && #[trigger] self.owns(i, b),
        decreases n,
    {
        if n > 0 {
            self.lemma_references(n - 1, b);
            self.lemma_gather(n - 1, b);
            lemma_names_concat(self.references(n - 1), self.gather(n - 1), b);
            if names_block(self.references(n), b) {
                if names_block(self.references(n - 1), b) {
                    let i = choose|i: int| 0 <= i < n - 1 && #[trigger] self.owns(i, b);
                    assert(self.owns(i, b));
                } else {
                    assert(self.owns(n - 1, b));
                }
            }
        }
    }

    /// Where pointers and bitmap agree, all pointers are in order.
    pub proof fn lemma_references_tidy(self, n: int)
        requires
            self.mapped(),
            0 <= n <= self.inodes.len(),
        ensures
            self.pointers_tidy(self.references(n)),
        decreases n,
    {
        if n > 0 {
            self.lemma_references_tidy(n - 1);
            let before = self.references(n - 1);
            let ptrs = self.gather(n - 1);
            let all = self.references(n);
            self.lemma_gather_tidy(n - 1);
            assert forall|q: int| 0 <= q < all.len() implies {
                &&& (#[trigger] all[q]) < self.bitmap.len()
                &&& self.bitmap[all[q] as int]
                &&& !names_block(all.take(q), all[q] as int)
            } by {
                if q < before.len() {
                    assert(all[q] == before[q]);
                    assert(all.take(q) =~= before.take(q));
                } else {
                    let r = q - before.len();
                    let b = ptrs[r] as int;
                    assert(all[q] == ptrs[r]);
                    assert(all.take(q) =~= before + ptrs.take(r));
                    lemma_names_concat(before, ptrs.take(r), b);
                    if names_block(before, b) {
                        self.lemma_references(n - 1, b);
                        let i = choose|i: int| 0 <= i < n - 1 && #[trigger] self.owns(i, b);
                        let s = choose|s: int|
                            0 <= s < self.field_count() && #[trigger] self.field(i, s) == b;
                        assert(names_block(ptrs, b));
                        self.lemma_gather(n - 1, b);
                        let t = choose|t: int|
                            0 <= t < self.field_count() && #[trigger] self.field(n - 1, t) == b;
                        assert(self.is_field(i, s) && self.is_field(n - 1, t));
                    }
                }
            }
        }
    }
}

impl ImageView {
    /// Where pointers and bitmap agree, the pointers in use lead to different
    /// blocks, which are the blocks marked used.
    pub proof fn lemma_mapped_references(self)
        requires
            self.mapped(),
        ensures
            self.pointers_tidy(self.references(INODE_COUNT as int)),
            forall|b: int|
                0 <= b < self.bitmap.len() && #[trigger] self.bitmap[b] ==> names_block(
                    self.references(INODE_COUNT as int),
                    b,
                ),
    {
        self.lemma_references_tidy(INODE_COUNT as int);
        assert forall|b: int|
            0 <= b < self.bitmap.len() && #[trigger] self.bitmap[b] implies names_block(
            self.references(INODE_COUNT as int),
            b,
        ) by {
            self.lemma_references(INODE_COUNT as int, b);
            let i = choose|i: int| 0 <= i < self.inodes.len() && #[trigger] self.owns(i, b);
            assert(self.owns(i, b));
        }
    }
}

/// The pointers of two sequences.
pub proof fn lemma_names_concat(a: Seq<u32>, c: Seq<u32>, b: int)
    ensures
        names_block(a + c, b) <==> names_block(a, b) || names_block(c, b),
{
    let all = a + c;
    if names_block(a, b) {
        let j = choose|j: int| 0 <= j < a.len() && #[trigger] a[j] == b;
        assert(all[j] == b);
    }
    if names_block(c, b) {
        let j = choose|j: int| 0 <= j < c.len() && #[trigger] c[j] == b;
        assert(all[a.len() + j] == b);
    }
    if names_block(all, b) {
        let j = choose|j: int| 0 <= j < all.len() && #[trigger] all[j] == b;
        if j < a.len() {
            assert(a[j] == b);
        } else {
            assert(c[j - a.len()] == b);
        }
    }
}

/// The consistency check finds nothing exactly if the image is consistent.
pub proof fn law_check_clean(img: ImageView)
    requires
        img.shaped(),
    ensures
        img.issues().len() == 0 <==> img.consistent(),
{
    let depth = (INODE_COUNT + 1) as nat;
    let w = img.walked();
    lemma_unseen_bound(no_walk().seen, INODE_COUNT as int);
    img.lemma_walked();
    img.lemma_walk_issues(depth, 0, no_walk());
    img.lemma_table_issues(w.seen, INODE_COUNT as int);
    img.lemma_bitmap_issues(img.bitmap.len() as int);
    img.lemma_root_attached();
    if img.issues().len() == 0 {
        assert forall|d: int|
            0 <= d < img.inodes.len() && #[trigger] img.attached(d) && img.inodes[d].kind
                == FileKind::Directory implies img.dir_tidy(d) by {
            assert(w.seen[d]);
        }
        assert forall|i: int|
            0 <= i < img.inodes.len() && (#[trigger] img.inodes[i]).allocated implies img.attached(
            i,
        ) by {
            assert(w.seen[i] || i == 0);
        }
    }
    if img.consistent() {
        assert forall|d: int|
            0 <= d < INODE_COUNT && #[trigger] w.seen[d] && !no_walk().seen[d]
                && img.inodes[d].kind == FileKind::Directory implies img.dir_tidy(d) by {
            assert(img.attached(d));
        }
        assert forall|i: int|
            0 <= i < INODE_COUNT && (#[trigger] img.inodes[i]).allocated implies w.seen[i] || i
            == 0 by {
            assert(img.attached(i));
        }
    }
}

/// A healthy image is consistent: the check finds nothing.
pub proof fn law_healthy_clean(img: ImageView)
    requires
        img.healthy(),
    ensures
        img.clean(),
        img.consistent(),
        img.issues().len() == 0,
{
    assert forall|d: int|
        0 <= d < img.inodes.len() && #[trigger] img.attached(d) && img.inodes[d].kind
            == FileKind::Directory implies img.dir_tidy(d) by {
        assert(img.node_sound(d));
        img.lemma_entries_ok(d);
        img.lemma_entries_targets(d);
    }
    assert forall|i: int|
        0 <= i < img.inodes.len() && (#[trigger] img.inodes[i]).allocated implies img.attached(
        i,
    ) by {
        let parts = choose|parts: Seq<Seq<char>>| #[trigger] img.leads_to(parts, i);
        img.lemma_resolve_attached(parts);
    }
    img.lemma_mapped_references();
    law_check_clean(img);
}

} // verus!
