//! What the consistency check of an image finds.

use vstd::prelude::*;
use crate::block::INODE_COUNT;
use crate::error::error_message;
use crate::inode::FileKind;
use crate::model::entry::EntryView;
use crate::model::image::{names_block, ImageView};
use crate::text::decimal;

verus! {

/// The state of a walk through the directory tree: the inodes that it came to
/// and what it found.
#[verifier::ext_equal]
pub struct WalkView {
    pub seen: Seq<bool>,
    pub issues: Seq<Seq<char>>,
}

impl WalkView {
    /// Notes an issue.
    pub open spec fn with_issue(self, issue: Seq<char>) -> WalkView {
        WalkView { issues: self.issues.push(issue), ..self }
    }

    /// Notes that the walk came to inode `id`.
    pub open spec fn with_seen(self, id: int) -> WalkView {
        WalkView { seen: self.seen.update(id, true), ..self }
    }
}

/// The walk before it starts.
pub open spec fn no_walk() -> WalkView {
    WalkView { seen: Seq::new(INODE_COUNT as nat, |i: int| false), issues: Seq::empty() }
}

/// How many of the first `n` inodes a walk has not come to.
pub open spec fn unseen(seen: Seq<bool>, n: int) -> nat
    decreases n,
{
    if n <= 0 {
        0
    } else if seen[n - 1] {
        unseen(seen, n - 1)
    } else {
        unseen(seen, n - 1) + 1
    }
}

/// Coming to one more inode leaves one less.
pub proof fn lemma_unseen(seen: Seq<bool>, id: int, n: int)
    requires
        0 <= id < seen.len(),
        0 <= n <= seen.len(),
        !seen[id],
    ensures
        unseen(seen.update(id, true), n) == unseen(seen, n) - if id < n {
            1int
        } else {
            0int
        },
    decreases n,
{
    if n > 0 {
        lemma_unseen(seen, id, n - 1);
    }
}

/// No more inodes are left than there are.
pub proof fn lemma_unseen_bound(seen: Seq<bool>, n: int)
    requires
        n >= 0,
    ensures
        unseen(seen, n) <= n,
    decreases n,
{
    if n > 0 {
        lemma_unseen_bound(seen, n - 1);
    }
}

impl ImageView {
    /// Walks the tree below `dir`, in the order of the entries. The walk enters
    /// an inode once; `depth` bounds how many it enters below each other.
    pub open spec fn walk(self, depth: nat, dir: u32, w: WalkView) -> WalkView
        decreases depth, 0nat,
    {
        let node = self.inodes[dir as int];
        if depth == 0 || dir >= w.seen.len() || w.seen[dir as int] {
            w
        } else if node.kind != FileKind::Directory {
            w.with_seen(dir as int)
        } else {
            match self.entries(node) {
                Ok(es) => self.walk_entries(
                    (depth - 1) as nat,
                    es,
                    es.len(),
                    w.with_seen(dir as int),
                ),
                Err(e) => w.with_seen(dir as int).with_issue(
                    "failed to read directory inode "@ + decimal(dir as nat) + ": "@
                        + error_message(e),
                ),
            }
        }
    }

    /// What the walk notes about the entry `e` itself.
    pub open spec fn visit(self, e: EntryView, w: WalkView) -> WalkView {
        if e.inode >= w.seen.len() {
            w.with_issue("directory entry points to invalid inode "@ + decimal(e.inode as nat))
        } else if !self.inodes[e.inode as int].allocated {
            w.with_issue("entry '"@ + e.name + "' points at unallocated inode"@)
        } else {
            w
        }
    }

    /// Walks the tree below the first `n` of the entries `es`.
    pub open spec fn walk_entries(
        self,
        depth: nat,
        es: Seq<EntryView>,
        n: nat,
        w: WalkView,
    ) -> WalkView
        decreases depth, n,
    {
        if n == 0 {
            w
        } else {
            let before = self.walk_entries(depth, es, (n - 1) as nat, w);
            let e = es[n - 1];
            if !e.used {
                before
            } else {
                self.walk(depth, e.inode, self.visit(e, before))
            }
        }
    }

    /// The walk through the whole tree. No path enters more inodes than there
    /// are, so the bound on the depth never ends it.
    pub open spec fn walked(self) -> WalkView {
        self.walk((INODE_COUNT + 1) as nat, 0, no_walk())
    }

    /// Every block pointer in use of the first `n` inodes, in order.
    pub open spec fn references(self, n: int) -> Seq<u32>
        decreases n,
    {
        if n <= 0 {
            Seq::empty()
        } else {
            self.references(n - 1) + self.gather(n - 1)
        }
    }

    /// What is wrong with the pointer `b` of inode `id`, where `before` are the
    /// pointers before it.
    pub open spec fn pointer_issues(self, id: int, before: Seq<u32>, b: u32) -> Seq<Seq<char>> {
        if b >= self.bitmap.len() {
            seq!["inode "@ + decimal(id as nat) + " points outside data area"@]
        } else {
            (if names_block(before, b as int) {
                seq!["block "@ + decimal(b as nat) + " referenced multiple times"@]
            } else {
                Seq::empty()
            }) + (if !self.bitmap[b as int] {
                seq!["block "@ + decimal(b as nat) + " used but bitmap marks free"@]
            } else {
                Seq::empty()
            })
        }
    }

    /// What is wrong with the first `n` of the pointers `ptrs` of inode `id`,
    /// where `before` are the pointers of the inodes before it.
    pub open spec fn pointers_issues(self, id: int, before: Seq<u32>, ptrs: Seq<u32>, n: int) -> Seq<
        Seq<char>,
    >
        decreases n,
    {
        if n <= 0 {
            Seq::empty()
        } else {
            self.pointers_issues(id, before, ptrs, n - 1) + self.pointer_issues(
                id,
                before + ptrs.take(n - 1),
                ptrs[n - 1],
            )
        }
    }

    /// What is wrong with inode `id` itself, given the inodes that the walk came
    /// to.
    pub open spec fn orphan_issues(self, id: int, seen: Seq<bool>) -> Seq<Seq<char>> {
        if self.inodes[id].allocated && !seen[id] && id != 0 {
            seq!["inode "@ + decimal(id as nat) + " allocated but unreachable"@]
        } else {
            Seq::empty()
        }
    }

    /// What is wrong with the first `n` inodes.
    pub open spec fn table_issues(self, seen: Seq<bool>, n: int) -> Seq<Seq<char>>
        decreases n,
    {
        if n <= 0 {
            Seq::empty()
        } else {
            let ptrs = self.gather(n - 1);
            self.table_issues(seen, n - 1) + self.orphan_issues(n - 1, seen)
                + self.pointers_issues(n - 1, self.references(n - 1), ptrs, ptrs.len() as int)
        }
    }

    /// Which of the first `n` blocks are marked used though no inode refers to
    /// them.
    pub open spec fn bitmap_issues(self, n: int) -> Seq<Seq<char>>
        decreases n,
    {
        if n <= 0 {
            Seq::empty()
        } else if self.bitmap[n - 1] && !names_block(
            self.references(INODE_COUNT as int),
            n - 1,
        ) {
            self.bitmap_issues(n - 1).push(
                "block "@ + decimal((n - 1) as nat) + " marked used but unreferenced"@,
            )
        } else {
            self.bitmap_issues(n - 1)
        }
    }

    /// Everything that the consistency check finds, in order.
    pub open spec fn issues(self) -> Seq<Seq<char>> {
        let w = self.walked();
        w.issues + self.table_issues(w.seen, INODE_COUNT as int) + self.bitmap_issues(
            self.bitmap.len() as int,
        )
    }

    /// Every directory that a walk came to can be scanned.
    pub open spec fn walk_readable(self, before: Seq<bool>, after: Seq<bool>) -> bool {
        forall|d: int|
            0 <= d < after.len() && #[trigger] after[d] && !before[d] && self.inodes[d].kind
                == FileKind::Directory ==> self.scan_readable(self.inodes[d])
    }

    /// The consistency check stays inside the image: the directories that the
    /// walk comes to can be scanned, and the pointers of the inodes in use can
    /// be gathered.
    pub open spec fn can_check(self) -> bool {
        &&& self.shaped()
        &&& self.walk_readable(no_walk().seen, self.walked().seen)
        &&& forall|i: int|
            0 <= i < self.inodes.len() && (#[trigger] self.inodes[i]).allocated
                ==> self.pointers_readable(self.inodes[i])
    }

    /// A walk comes to inodes, and forgets none.
    pub proof fn lemma_walk_grows(self, depth: nat, dir: u32, w: WalkView)
        ensures
            self.walk(depth, dir, w).seen.len() == w.seen.len(),
            forall|d: int|
                0 <= d < w.seen.len() && w.seen[d] ==> #[trigger] self.walk(
                    depth,
                    dir,
                    w,
                ).seen[d],
        decreases depth, 0nat,
    {
        if depth == 0 || dir >= w.seen.len() || w.seen[dir as int] {
        } else if self.inodes[dir as int].kind != FileKind::Directory {
        } else if let Ok(es) = self.entries(self.inodes[dir as int]) {
            self.lemma_walk_entries_grows((depth - 1) as nat, es, es.len(), w.with_seen(dir as int));
        }
    }

    /// A walk through entries comes to inodes, and forgets none.
    pub proof fn lemma_walk_entries_grows(
        self,
        depth: nat,
        es: Seq<EntryView>,
        n: nat,
        w: WalkView,
    )
        ensures
            self.walk_entries(depth, es, n, w).seen.len() == w.seen.len(),
            forall|d: int|
                0 <= d < w.seen.len() && w.seen[d] ==> #[trigger] self.walk_entries(
                    depth,
                    es,
                    n,
                    w,
                ).seen[d],
        decreases depth, n,
    {
        if n > 0 {
            self.lemma_walk_entries_grows(depth, es, (n - 1) as nat, w);
            let before = self.walk_entries(depth, es, (n - 1) as nat, w);
            let e = es[n - 1];
            if e.used {
                self.lemma_walk_grows(depth, e.inode, self.visit(e, before));
                assert(self.visit(e, before).seen == before.seen);
            }
        }
    }

    /// A walk through fewer of the entries comes to fewer inodes.
    pub proof fn lemma_walk_entries_prefix(
        self,
        depth: nat,
        es: Seq<EntryView>,
        m: nat,
        n: nat,
        w: WalkView,
    )
        requires
            m <= n,
        ensures
            self.walk_entries(depth, es, m, w).seen.len() == w.seen.len(),
            self.walk_entries(depth, es, n, w).seen.len() == w.seen.len(),
            forall|d: int|
                0 <= d < w.seen.len() && self.walk_entries(depth, es, m, w).seen[d]
                    ==> #[trigger] self.walk_entries(depth, es, n, w).seen[d],
        decreases n - m,
    {
        self.lemma_walk_entries_grows(depth, es, m, w);
        self.lemma_walk_entries_grows(depth, es, n, w);
        if m < n {
            self.lemma_walk_entries_prefix(depth, es, m, (n - 1) as nat, w);
            let before = self.walk_entries(depth, es, (n - 1) as nat, w);
            let e = es[n - 1];
            if e.used {
                self.lemma_walk_grows(depth, e.inode, self.visit(e, before));
                assert(self.visit(e, before).seen == before.seen);
            }
        }
    }

    /// In an image in range, the consistency check stays inside the image.
    pub proof fn lemma_can_check(self)
        requires
            self.in_range(),
        ensures
            self.can_check(),
    {
        self.lemma_walk_grows((INODE_COUNT + 1) as nat, 0, no_walk());
        assert forall|i: int| 0 <= i < self.inodes.len() implies {
            &&& self.pointers_readable(#[trigger] self.inodes[i])
            &&& self.scan_readable(self.inodes[i])
        } by {
            self.lemma_node_readable(self.inodes[i]);
        }
    }
}

} // verus!
