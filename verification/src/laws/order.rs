//! The order of the lines of a consistency report.

use vstd::prelude::*;
use crate::block::INODE_COUNT;
use crate::inode::FileKind;
use crate::laws::blocks::{law_gather, refers};
use crate::laws::check::lemma_names_concat;
use crate::laws::report::{
    invalid_line, is_tree_line, marked_free_line, orphan_line, outside_line, repeated_line,
    stale_line, unreferenced_line,
};
use crate::model::check::{no_walk, WalkView};
use crate::model::entry::EntryView;
use crate::model::image::{names_block, ImageView};

verus! {

/// The lines that `f` gives for the numbers below `n`, behind each other.
pub open spec fn pile(n: int, f: spec_fn(int) -> Seq<Seq<char>>) -> Seq<Seq<char>>
    decreases n,
{
    if n <= 0 {
        Seq::empty()
    } else {
        pile(n - 1, f) + f(n - 1)
    }
}

impl ImageView {
    /// The block that the `k`-th pointer of inode `i` leads to is one that an
    /// earlier pointer leads to: of an inode before it, or of its own.
    pub open spec fn repeats(self, i: int, k: int) -> bool {
        exists|i2: int, k2: int|
            {
                &&& 0 <= i2
                &&& 0 <= k2 < self.gather(i2).len()
                &&& i2 < i || (i2 == i && k2 < k)
                &&& #[trigger] self.gather(i2)[k2] == self.gather(i)[k]
            }
    }

    /// The lines for the pointers of inode `i`, in their order: one for a pointer
    /// outside the image, else one for a block that is repeated and one for a
    /// block that is marked free.
    pub open spec fn pointer_lines(self, i: int) -> spec_fn(int) -> Seq<Seq<char>> {
        |k: int|
            {
                let b = self.gather(i)[k];
                if b >= self.bitmap.len() {
                    seq![outside_line(i as nat)]
                } else {
                    (if self.repeats(i, k) {
                        seq![repeated_line(b as nat)]
                    } else {
                        Seq::empty()
                    }) + (if !self.bitmap[b as int] {
                        seq![marked_free_line(b as nat)]
                    } else {
                        Seq::empty()
                    })
                }
            }
    }

    /// The lines for an inode: one if it is in use but not attached, and then
    /// those for its pointers.
    pub open spec fn inode_lines(self) -> spec_fn(int) -> Seq<Seq<char>> {
        |i: int|
            (if i != 0 && self.inodes[i].allocated && !self.attached(i) {
                seq![orphan_line(i as nat)]
            } else {
                Seq::empty()
            }) + pile(self.gather(i).len() as int, self.pointer_lines(i))
    }

    /// Some inode in use refers to block `b`.
    pub open spec fn referred(self, b: int) -> bool {
        exists|i: int|
            0 <= i < 256 && (#[trigger] self.inodes[i]).allocated && refers(
                self,
                self.inodes[i],
                b,
            )
    }

    /// The line for a block: one if it is in use and no inode refers to it.
    pub open spec fn block_lines(self) -> spec_fn(int) -> Seq<Seq<char>> {
        |b: int|
            if self.bitmap[b] && !self.referred(b) {
                seq![unreferenced_line(b as nat)]
            } else {
                Seq::empty()
            }
    }

    proof fn lemma_repeats(self, i: int, k: int)
        requires
            self.shaped(),
            0 <= i < self.inodes.len(),
            0 <= k < self.gather(i).len(),
        ensures
            names_block(
                self.references(i) + self.gather(i).take(k),
                self.gather(i)[k] as int,
            ) <==> self.repeats(i, k),
    {
        let ptrs = self.gather(i);
        let b = ptrs[k] as int;
        self.lemma_references(i, b);
        lemma_names_concat(self.references(i), ptrs.take(k), b);
        if names_block(ptrs.take(k), b) {
            let j = choose|j: int| 0 <= j < k && #[trigger] ptrs.take(k)[j] == b;
            assert(self.gather(i)[j] == self.gather(i)[k]);
        }
        if names_block(self.references(i), b) {
            let i2 = choose|i2: int| 0 <= i2 < i && #[trigger] self.owns(i2, b);
            self.lemma_gather(i2, b);
            let j = choose|j: int|
                0 <= j < self.gather(i2).len() && #[trigger] self.gather(i2)[j] == b;
            assert(self.gather(i2)[j] == self.gather(i)[k]);
        }
        if self.repeats(i, k) {
            let (i2, k2) = choose|i2: int, k2: int|
                {
                    &&& 0 <= i2
                    &&& 0 <= k2 < self.gather(i2).len()
                    &&& i2 < i || (i2 == i && k2 < k)
                    &&& #[trigger] self.gather(i2)[k2] == self.gather(i)[k]
                };
            if i2 == i {
                assert(ptrs.take(k)[k2] == b);
            } else {
                assert(names_block(self.gather(i2), b));
                self.lemma_gather(i2, b);
            }
        }
    }

    proof fn lemma_pointer_pile(self, i: int, n: int)
        requires
            self.shaped(),
            0 <= i < self.inodes.len(),
            0 <= n <= self.gather(i).len(),
        ensures
            self.pointers_issues(i, self.references(i), self.gather(i), n) == pile(
                n,
                self.pointer_lines(i),
            ),
        decreases n,
    {
        if n > 0 {
            self.lemma_pointer_pile(i, n - 1);
            self.lemma_repeats(i, n - 1);
        }
    }

    proof fn lemma_table_pile(self, n: int)
        requires
            self.shaped(),
            0 <= n <= INODE_COUNT,
        ensures
            self.table_issues(self.walked().seen, n) == pile(n, self.inode_lines()),
        decreases n,
    {
        if n > 0 {
            self.lemma_table_pile(n - 1);
            self.lemma_pointer_pile(n - 1, self.gather(n - 1).len() as int);
            self.lemma_walked();
            assert(self.walked().seen[n - 1] <==> self.attached(n - 1));
            let f = self.inode_lines();
            assert(pile(n, f) =~= pile(n - 1, f) + f(n - 1));
            assert(self.table_issues(self.walked().seen, n) =~= pile(n - 1, f) + f(n - 1));
        }
    }

    proof fn lemma_referred(self, b: int)
        requires
            self.shaped(),
        ensures
            names_block(self.references(INODE_COUNT as int), b) <==> self.referred(b),
    {
        self.lemma_references(INODE_COUNT as int, b);
        if names_block(self.references(INODE_COUNT as int), b) {
            let i = choose|i: int| 0 <= i < INODE_COUNT && #[trigger] self.owns(i, b);
            self.lemma_gather(i, b);
            law_gather(self, i);
            assert(self.inodes[i].allocated);
        }
        if self.referred(b) {
            let i = choose|i: int|
                0 <= i < 256 && (#[trigger] self.inodes[i]).allocated && refers(
                    self,
                    self.inodes[i],
                    b,
                );
            law_gather(self, i);
            assert(names_block(self.gather(i), b));
            self.lemma_gather(i, b);
        }
    }

    proof fn lemma_bitmap_pile(self, n: int)
        requires
            self.shaped(),
            0 <= n <= self.bitmap.len(),
        ensures
            self.bitmap_issues(n) == pile(n, self.block_lines()),
        decreases n,
    {
        if n > 0 {
            self.lemma_bitmap_pile(n - 1);
            self.lemma_referred(n - 1);
            let f = self.block_lines();
            assert(self.bitmap_issues(n) =~= pile(n - 1, f) + f(n - 1));
        }
    }
}

/// The report, part by part: lines about directories and their entries; then, for
/// each inode in turn, a line if it is in use but not attached, and the lines for
/// its pointers in turn; then a line for each block in use, in turn, that no inode
/// refers to.
pub proof fn law_report_table(img: ImageView)
    requires
        img.shaped(),
    ensures
        exists|a: int|
            {
                &&& 0 <= a <= img.issues().len()
                &&& forall|j: int| 0 <= j < a ==> is_tree_line(img.issues()[j])
                &&& #[trigger] img.issues().skip(a) == pile(256, img.inode_lines()) + pile(
                    img.sb.num_blocks as int,
                    img.block_lines(),
                )
            },
{
    let a = img.walked().issues.len() as int;
    img.lemma_table_pile(INODE_COUNT as int);
    img.lemma_bitmap_pile(img.bitmap.len() as int);
    img.lemma_report_parts(Seq::empty());
    assert(img.issues().skip(a) =~= pile(256, img.inode_lines()) + pile(
        img.sb.num_blocks as int,
        img.block_lines(),
    ));
    assert forall|j: int| 0 <= j < a implies is_tree_line(img.issues()[j]) by {
        assert(img.issues()[j] == img.walked().issues[j]);
    }
}

/// `all` starts with `head`.
pub open spec fn starts(all: Seq<Seq<char>>, head: Seq<Seq<char>>) -> bool {
    &&& head.len() <= all.len()
    &&& forall|j: int| 0 <= j < head.len() ==> #[trigger] all[j] == head[j]
}

impl ImageView {
    /// The line that is told of the entry `e`, if there is one: its inode is not
    /// in the table, or not in use.
    pub open spec fn entry_line(self, e: EntryView) -> Option<Seq<char>> {
        if !e.used {
            None
        } else if e.inode >= 256 {
            Some(invalid_line(e.inode as nat))
        } else if !self.inodes[e.inode as int].allocated {
            Some(stale_line(e.name))
        } else {
            None
        }
    }

    proof fn lemma_walk_starts(self, depth: nat, dir: u32, w: WalkView)
        ensures
            starts(self.walk(depth, dir, w).issues, w.issues),
        decreases depth, 0nat,
    {
        if depth == 0 || dir >= w.seen.len() || w.seen[dir as int] {
        } else if self.inodes[dir as int].kind != FileKind::Directory {
        } else if let Ok(es) = self.entries(self.inodes[dir as int]) {
            self.lemma_walk_entries_starts(
                (depth - 1) as nat,
                es,
                es.len(),
                w.with_seen(dir as int),
            );
        }
    }

    proof fn lemma_walk_entries_starts(
        self,
        depth: nat,
        es: Seq<EntryView>,
        n: nat,
        w: WalkView,
    )
        ensures
            starts(self.walk_entries(depth, es, n, w).issues, w.issues),
        decreases depth, n,
    {
        if n > 0 {
            self.lemma_walk_entries_starts(depth, es, (n - 1) as nat, w);
            let before = self.walk_entries(depth, es, (n - 1) as nat, w);
            let e = es[n - 1];
            if e.used {
                self.lemma_walk_starts(depth, e.inode, self.visit(e, before));
            }
        }
    }

    proof fn lemma_walk_entries_longer(
        self,
        depth: nat,
        es: Seq<EntryView>,
        m: nat,
        n: nat,
        w: WalkView,
    )
        requires
            m <= n,
        ensures
            starts(
                self.walk_entries(depth, es, n, w).issues,
                self.walk_entries(depth, es, m, w).issues,
            ),
        decreases n - m,
    {
        if m < n {
            self.lemma_walk_entries_longer(depth, es, m, (n - 1) as nat, w);
            let before = self.walk_entries(depth, es, (n - 1) as nat, w);
            let e = es[n - 1];
            if e.used {
                self.lemma_walk_starts(depth, e.inode, self.visit(e, before));
            }
        }
    }

    /// What is told of the entries of the directory `d`, in order, stands at the
    /// start of `issues`, behind other lines.
    pub open spec fn told(self, d: int, issues: Seq<Seq<char>>) -> bool {
        exists|depth: nat, w: WalkView|
            w.seen.len() == INODE_COUNT && starts(
                issues,
                (#[trigger] self.walk_entries(
                    depth,
                    self.entries(self.inodes[d])->Ok_0,
                    self.entries(self.inodes[d])->Ok_0.len(),
                    w,
                )).issues,
            )
    }

    /// The directory `d` is one that can be read.
    pub open spec fn legible(self, d: int) -> bool {
        self.inodes[d].kind == FileKind::Directory && self.entries(self.inodes[d]) is Ok
    }

    proof fn lemma_told_longer(self, d: int, head: Seq<Seq<char>>, all: Seq<Seq<char>>)
        requires
            self.told(d, head),
            starts(all, head),
        ensures
            self.told(d, all),
    {
        let es = self.entries(self.inodes[d])->Ok_0;
        let (depth, w) = choose|depth: nat, w: WalkView|
            w.seen.len() == INODE_COUNT && starts(
                head,
                (#[trigger] self.walk_entries(depth, es, es.len(), w)).issues,
            );
        let part = self.walk_entries(depth, es, es.len(), w).issues;
        assert forall|j: int| 0 <= j < part.len() implies #[trigger] all[j] == part[j] by {
            assert(all[j] == head[j]);
        }
        assert(starts(all, part));
    }

    proof fn lemma_walk_told(self, depth: nat, dir: u32, w: WalkView, d: int)
        requires
            w.seen.len() == INODE_COUNT,
            0 <= d < INODE_COUNT,
            self.legible(d),
            !w.seen[d],
            self.walk(depth, dir, w).seen[d],
        ensures
            self.told(d, self.walk(depth, dir, w).issues),
        decreases depth, 0nat,
    {
        let node = self.inodes[dir as int];
        if depth == 0 || dir >= w.seen.len() || w.seen[dir as int] {
        } else if node.kind != FileKind::Directory {
        } else if let Ok(es) = self.entries(node) {
            let w1 = w.with_seen(dir as int);
            let part = self.walk_entries((depth - 1) as nat, es, es.len(), w1);
            if d == dir {
                assert(starts(part.issues, part.issues));
                assert(self.told(d, part.issues));
            } else {
                self.lemma_walk_entries_told((depth - 1) as nat, es, es.len(), w1, d);
            }
        }
    }

    proof fn lemma_walk_entries_told(
        self,
        depth: nat,
        es: Seq<EntryView>,
        n: nat,
        w: WalkView,
        d: int,
    )
        requires
            w.seen.len() == INODE_COUNT,
            0 <= d < INODE_COUNT,
            self.legible(d),
            !w.seen[d],
            self.walk_entries(depth, es, n, w).seen[d],
        ensures
            self.told(d, self.walk_entries(depth, es, n, w).issues),
        decreases depth, n,
    {
        if n > 0 {
            let before = self.walk_entries(depth, es, (n - 1) as nat, w);
            let e = es[n - 1];
            self.lemma_walk_entries_grows(depth, es, (n - 1) as nat, w);
            if before.seen[d] {
                self.lemma_walk_entries_told(depth, es, (n - 1) as nat, w, d);
                self.lemma_walk_entries_longer(depth, es, (n - 1) as nat, n, w);
                self.lemma_told_longer(
                    d,
                    before.issues,
                    self.walk_entries(depth, es, n, w).issues,
                );
            } else if e.used {
                self.lemma_walk_told(depth, e.inode, self.visit(e, before), d);
            }
        }
    }
}

/// What is told of the entries of one directory is told in their order.
pub proof fn law_report_entry_order(img: ImageView, d: int, p: int, q: int)
    requires
        img.shaped(),
        0 <= d < 256,
        img.attached(d),
        img.inodes[d].kind == FileKind::Directory,
        img.entries(img.inodes[d]) matches Ok(es) && 0 <= p < q < es.len() && img.entry_line(
            es[p],
        ) is Some && img.entry_line(es[q]) is Some,
    ensures
        ({
            let es = img.entries(img.inodes[d])->Ok_0;
            exists|x: int, y: int|
                {
                    &&& 0 <= x < y < img.issues().len()
                    &&& Some(#[trigger] img.issues()[x]) == img.entry_line(es[p])
                    &&& Some(#[trigger] img.issues()[y]) == img.entry_line(es[q])
                }
        }),
{
    let es = img.entries(img.inodes[d])->Ok_0;
    let all = img.issues();
    let walked = img.walked().issues;
    img.lemma_walked();
    assert(img.walked().seen[d]);
    img.lemma_walk_told((INODE_COUNT + 1) as nat, 0, no_walk(), d);
    let (depth, w) = choose|depth: nat, w: WalkView|
        w.seen.len() == INODE_COUNT && starts(
            walked,
            (#[trigger] img.walk_entries(depth, es, es.len(), w)).issues,
        );
    let part = img.walk_entries(depth, es, es.len(), w).issues;
    let at_p = img.walk_entries(depth, es, p as nat, w);
    let at_q = img.walk_entries(depth, es, q as nat, w);
    let x = at_p.issues.len() as int;
    let y = at_q.issues.len() as int;
    img.lemma_walk_entries_grows(depth, es, p as nat, w);
    img.lemma_walk_entries_grows(depth, es, q as nat, w);
    img.lemma_walk_starts(depth, es[p].inode, img.visit(es[p], at_p));
    img.lemma_walk_starts(depth, es[q].inode, img.visit(es[q], at_q));
    img.lemma_walk_entries_longer(depth, es, (p + 1) as nat, q as nat, w);
    img.lemma_walk_entries_longer(depth, es, (p + 1) as nat, es.len(), w);
    img.lemma_walk_entries_longer(depth, es, (q + 1) as nat, es.len(), w);
    let past_p = img.walk_entries(depth, es, (p + 1) as nat, w).issues;
    let past_q = img.walk_entries(depth, es, (q + 1) as nat, w).issues;
    assert(past_p[x] == img.visit(es[p], at_p).issues[x]);
    assert(past_q[y] == img.visit(es[q], at_q).issues[y]);
    assert(part[x] == past_p[x]);
    assert(part[y] == past_q[y]);
    assert(walked[x] == part[x]);
    assert(walked[y] == part[y]);
    assert(all[x] == walked[x]);
    assert(all[y] == walked[y]);
    assert(x < y);
}

} // verus!
