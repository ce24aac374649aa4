//! The report of the consistency check: which lines it holds, how often, and in
//! what order.

use vstd::prelude::*;
use crate::block::INODE_COUNT;
use crate::error::{error_message, ErrorView};
use crate::inode::{FileKind, DIRECT_POINTERS, NULL_BLOCK};
use crate::laws::count::{
    equals, lemma_live_tally, lemma_sum_one, lemma_sum_same, lemma_tally_concat, lemma_tally_none,
    lemma_tally_push, lemma_tally_same, occurs, past, sum_to, tally, to_block, used_and,
};
use crate::model::check::{no_walk, WalkView};
use crate::model::entry::EntryView;
use crate::model::image::{names_block, ImageView};
use crate::text::{decimal, law_decimal, law_decimal_differs};

verus! {

/// The line for inode `i` that is in use though the tree does not hold it.
pub open spec fn orphan_line(i: nat) -> Seq<char> {
    "inode "@ + decimal(i) + " allocated but unreachable"@
}

/// The line for a pointer of inode `i` to a block that there is not.
pub open spec fn outside_line(i: nat) -> Seq<char> {
    "inode "@ + decimal(i) + " points outside data area"@
}

/// The line for a further pointer to block `b`.
pub open spec fn repeated_line(b: nat) -> Seq<char> {
    "block "@ + decimal(b) + " referenced multiple times"@
}

/// The line for a pointer to block `b`, which is marked free.
pub open spec fn marked_free_line(b: nat) -> Seq<char> {
    "block "@ + decimal(b) + " used but bitmap marks free"@
}

/// The line for block `b` that is marked used though no pointer leads to it.
pub open spec fn unreferenced_line(b: nat) -> Seq<char> {
    "block "@ + decimal(b) + " marked used but unreferenced"@
}

/// The line for an entry that names inode `x`, which there is not.
pub open spec fn invalid_line(x: nat) -> Seq<char> {
    "directory entry points to invalid inode "@ + decimal(x)
}

/// The line for the entry `name`, whose inode is not in use.
pub open spec fn stale_line(name: Seq<char>) -> Seq<char> {
    "entry '"@ + name + "' points at unallocated inode"@
}

/// The line for the directory `d` that cannot be read for the reason `e`.
pub open spec fn unreadable_line(d: nat, e: ErrorView) -> Seq<char> {
    "failed to read directory inode "@ + decimal(d) + ": "@ + error_message(e)
}

/// A line about a directory or one of its entries.
pub open spec fn is_tree_line(line: Seq<char>) -> bool {
    ||| exists|x: nat| line == #[trigger] invalid_line(x)
    ||| exists|name: Seq<char>| line == #[trigger] stale_line(name)
    ||| exists|d: nat, e: ErrorView| line == #[trigger] unreadable_line(d, e)
}

/// A line about an inode in use or one of its pointers.
pub open spec fn is_table_line(line: Seq<char>) -> bool {
    ||| exists|i: nat| line == #[trigger] orphan_line(i)
    ||| exists|i: nat| line == #[trigger] outside_line(i)
    ||| exists|b: nat| line == #[trigger] repeated_line(b)
    ||| exists|b: nat| line == #[trigger] marked_free_line(b)
}

/// A line about a block without pointers.
pub open spec fn is_bitmap_line(line: Seq<char>) -> bool {
    exists|b: nat| line == #[trigger] unreferenced_line(b)
}

/// How the lines about inodes and blocks begin and end.
proof fn lemma_table_lines(n: nat)
    ensures
        orphan_line(n)[0] == 'i' && orphan_line(n).last() == 'e',
        outside_line(n)[0] == 'i' && outside_line(n).last() == 'a',
        repeated_line(n)[0] == 'b' && repeated_line(n).last() == 's',
        marked_free_line(n)[0] == 'b' && marked_free_line(n).last() == 'e',
        unreferenced_line(n)[0] == 'b' && unreferenced_line(n).last() == 'd',
{
    reveal_strlit("inode ");
    reveal_strlit("block ");
    reveal_strlit(" allocated but unreachable");
    reveal_strlit(" points outside data area");
    reveal_strlit(" referenced multiple times");
    reveal_strlit(" used but bitmap marks free");
    reveal_strlit(" marked used but unreferenced");
}

/// How the lines about directories begin.
proof fn lemma_tree_lines(n: nat, name: Seq<char>, e: ErrorView)
    ensures
        invalid_line(n)[0] == 'd',
        stale_line(name)[0] == 'e',
        unreadable_line(n, e)[0] == 'f',
{
    reveal_strlit("directory entry points to invalid inode ");
    reveal_strlit("entry '");
    reveal_strlit("failed to read directory inode ");
}

/// The middle of a line.
proof fn lemma_middle(head: Seq<char>, a: Seq<char>, b: Seq<char>, tail: Seq<char>)
    requires
        head + a + tail == head + b + tail,
    ensures
        a == b,
{
    let one = head + a + tail;
    let two = head + b + tail;
    let k = head.len() as int;
    assert(one.len() == two.len());
    assert(a =~= one.subrange(k, k + a.len()));
    assert(b =~= two.subrange(k, k + b.len()));
}

/// The lines for different inodes and blocks differ.
proof fn lemma_lines_differ(m: nat, n: nat)
    requires
        m != n,
    ensures
        orphan_line(m) != orphan_line(n),
        outside_line(m) != outside_line(n),
        repeated_line(m) != repeated_line(n),
        marked_free_line(m) != marked_free_line(n),
        unreferenced_line(m) != unreferenced_line(n),
        invalid_line(m) != invalid_line(n),
{
    law_decimal_differs(m, n);
    if orphan_line(m) == orphan_line(n) {
        lemma_middle("inode "@, decimal(m), decimal(n), " allocated but unreachable"@);
    }
    if outside_line(m) == outside_line(n) {
        lemma_middle("inode "@, decimal(m), decimal(n), " points outside data area"@);
    }
    if repeated_line(m) == repeated_line(n) {
        lemma_middle("block "@, decimal(m), decimal(n), " referenced multiple times"@);
    }
    if marked_free_line(m) == marked_free_line(n) {
        lemma_middle("block "@, decimal(m), decimal(n), " used but bitmap marks free"@);
    }
    if unreferenced_line(m) == unreferenced_line(n) {
        lemma_middle("block "@, decimal(m), decimal(n), " marked used but unreferenced"@);
    }
    if invalid_line(m) == invalid_line(n) {
        let head = "directory entry points to invalid inode "@;
        assert(invalid_line(m) =~= head + decimal(m) + Seq::empty());
        assert(invalid_line(n) =~= head + decimal(n) + Seq::empty());
        lemma_middle(head, decimal(m), decimal(n), Seq::empty());
    }
}

/// The lines for entries with different names differ.
proof fn lemma_names_differ(a: Seq<char>, b: Seq<char>)
    ensures
        stale_line(a) == stale_line(b) ==> a == b,
{
    if stale_line(a) == stale_line(b) {
        lemma_middle("entry '"@, a, b, "' points at unallocated inode"@);
    }
}

/// The lines for different unreadable directories differ.
proof fn lemma_unreadable_differ(m: nat, d: ErrorView, n: nat, e: ErrorView)
    ensures
        unreadable_line(m, d) == unreadable_line(n, e) ==> m == n && error_message(d)
            == error_message(e),
{
    let head = "failed to read directory inode "@;
    let one = unreadable_line(m, d);
    let two = unreadable_line(n, e);
    let k = head.len() as int;
    let a = decimal(m);
    let b = decimal(n);
    if one == two {
        reveal_strlit(": ");
        law_decimal(m);
        law_decimal(n);
        law_decimal_differs(m, n);
        if a.len() < b.len() {
            assert(one[k + a.len()] == ':');
            assert(two[k + a.len()] == b[a.len() as int]);
        } else if b.len() < a.len() {
            assert(two[k + b.len()] == ':');
            assert(one[k + b.len()] == a[b.len() as int]);
        } else {
            assert(a =~= one.subrange(k, k + a.len()));
            assert(b =~= two.subrange(k, k + b.len()));
            assert(error_message(d) =~= one.skip(k + a.len() + 2));
            assert(error_message(e) =~= two.skip(k + b.len() + 2));
        }
    }
}

impl ImageView {
    /// The pointer fields of inode `i`.
    pub open spec fn fields(self, i: int) -> Seq<u32> {
        Seq::new(self.field_count() as nat, |s: int| self.field(i, s))
    }

    /// How many pointers of inode `i` lead to block `b`.
    pub open spec fn uses_by(self, i: int, b: nat) -> nat {
        tally(self.fields(i), used_and(to_block(b)))
    }

    /// How many pointers lead to block `b`.
    pub open spec fn uses(self, b: nat) -> nat {
        sum_to(INODE_COUNT as int, self.uses_of(b))
    }

    /// How many pointers of each inode lead to block `b`.
    pub open spec fn uses_of(self, b: nat) -> spec_fn(int) -> nat {
        |i: int| self.uses_by(i, b)
    }

    /// How many pointers of inode `i` lead to blocks that there are not.
    pub open spec fn strays(self, i: int) -> nat {
        tally(self.fields(i), used_and(past(self.bitmap.len())))
    }

    /// The entries of the directory `d`, if the tree holds it and it can be
    /// read.
    pub open spec fn tree_entries(self, d: int) -> Seq<EntryView> {
        if self.attached(d) && self.inodes[d].kind == FileKind::Directory {
            match self.entries(self.inodes[d]) {
                Ok(es) => es,
                Err(_) => Seq::empty(),
            }
        } else {
            Seq::empty()
        }
    }

    /// How many entries of each directory of the tree meet `p`.
    pub open spec fn tree_tally(self, p: spec_fn(EntryView) -> bool) -> spec_fn(int) -> nat {
        |d: int| tally(self.tree_entries(d), p)
    }

    /// The test for entries in use under `name` whose inode is not in use.
    pub open spec fn names_unused(self, name: Seq<char>) -> spec_fn(EntryView) -> bool {
        |e: EntryView|
            e.used && e.name == name && e.inode < INODE_COUNT
                && !self.inodes[e.inode as int].allocated
    }

    /// Counting the pointers in use of an inode is counting its fields.
    pub proof fn lemma_gather_tally(self, i: int, p: spec_fn(u32) -> bool)
        requires
            self.shaped(),
            0 <= i < self.inodes.len(),
        ensures
            tally(self.gather(i), p) == tally(self.fields(i), used_and(p)),
    {
        let node = self.inodes[i];
        let all = self.fields(i);
        let q = used_and(p);
        if !node.allocated {
            lemma_tally_none(all, q);
        } else {
            lemma_live_tally(self.pointer_fields(node), p);
            if node.indirect == NULL_BLOCK {
                let rest = all.skip(DIRECT_POINTERS as int);
                assert(all =~= node.direct + rest);
                lemma_tally_concat(node.direct, rest, q);
                assert forall|j: int| 0 <= j < rest.len() implies !q(#[trigger] rest[j]) by {
                    assert(rest[j] == self.field(i, DIRECT_POINTERS + j));
                }
                lemma_tally_none(rest, q);
            } else {
                assert(all =~= self.pointer_fields(node));
            }
        }
    }

    /// The pointers to block `b` among those of the first `n` inodes.
    proof fn lemma_references_tally(self, n: int, b: nat)
        requires
            self.shaped(),
            0 <= n <= self.inodes.len(),
        ensures
            tally(self.references(n), to_block(b)) == sum_to(n, self.uses_of(b)),
        decreases n,
    {
        if n > 0 {
            self.lemma_references_tally(n - 1, b);
            lemma_tally_concat(self.references(n - 1), self.gather(n - 1), to_block(b));
            self.lemma_gather_tally(n - 1, to_block(b));
        }
    }
}

/// The test for entries in use that name inode `x`.
pub open spec fn names_id(x: nat) -> spec_fn(EntryView) -> bool {
    |e: EntryView| e.used && e.inode == x
}

/// `n` less one, but not below zero.
pub open spec fn further(n: nat) -> nat {
    if n == 0 {
        0
    } else {
        (n - 1) as nat
    }
}

/// A block is named exactly if a pointer to it is counted.
proof fn lemma_names_tally(ptrs: Seq<u32>, b: nat)
    ensures
        names_block(ptrs, b as int) <==> tally(ptrs, to_block(b)) > 0,
{
    let p = to_block(b);
    lemma_tally_none(ptrs, p);
    if names_block(ptrs, b as int) {
        let j = choose|j: int| 0 <= j < ptrs.len() && #[trigger] ptrs[j] == b as int;
        assert(p(ptrs[j]));
    }
}

/// The count of a line in at most two lines.
proof fn lemma_occurs_short(line: Seq<char>, a: Seq<char>, b: Seq<char>)
    ensures
        occurs(Seq::<Seq<char>>::empty(), line) == 0,
        occurs(seq![a], line) == if a == line {
            1nat
        } else {
            0nat
        },
        occurs(seq![a] + seq![b], line) == occurs(seq![a], line) + occurs(seq![b], line),
{
    let p = equals(line);
    assert(seq![a].drop_last() =~= Seq::<Seq<char>>::empty());
    lemma_tally_concat(seq![a], seq![b], p);
    reveal_with_fuel(tally, 2);
}

impl ImageView {
    /// What the check of one pointer adds to the counts.
    proof fn lemma_pointer_occurs(self, id: nat, before: Seq<u32>, b: u32, n: nat)
        ensures
            ({
                let lines = self.pointer_issues(id as int, before, b);
                &&& occurs(lines, orphan_line(n)) == 0
                &&& occurs(lines, unreferenced_line(n)) == 0
                &&& occurs(lines, outside_line(n)) == if b >= self.bitmap.len() && id == n {
                    1nat
                } else {
                    0nat
                }
                &&& occurs(lines, repeated_line(n)) == if b < self.bitmap.len() && b == n
                    && names_block(before, b as int) {
                    1nat
                } else {
                    0nat
                }
                &&& occurs(lines, marked_free_line(n)) == if b < self.bitmap.len() && b == n
                    && !self.bitmap[b as int] {
                    1nat
                } else {
                    0nat
                }
                &&& forall|j: int| 0 <= j < lines.len() ==> is_table_line(#[trigger] lines[j])
            }),
    {
        let c = b as nat;
        lemma_table_lines(n);
        lemma_table_lines(id);
        lemma_table_lines(c);
        if id != n {
            lemma_lines_differ(id, n);
        }
        if c != n {
            lemma_lines_differ(c, n);
        }
        let e = Seq::<Seq<char>>::empty();
        let lines = self.pointer_issues(id as int, before, b);
        assert(seq![repeated_line(c)] + e =~= seq![repeated_line(c)]);
        assert(e + seq![marked_free_line(c)] =~= seq![marked_free_line(c)]);
        assert(e + e =~= e);
        if b >= self.bitmap.len() {
            assert(lines == seq![outside_line(id)]);
        } else if names_block(before, b as int) && !self.bitmap[b as int] {
            assert(lines == seq![repeated_line(c)] + seq![marked_free_line(c)]);
        }
        lemma_occurs_short(orphan_line(n), outside_line(id), repeated_line(c));
        lemma_occurs_short(unreferenced_line(n), outside_line(id), repeated_line(c));
        lemma_occurs_short(outside_line(n), outside_line(id), repeated_line(c));
        lemma_occurs_short(repeated_line(n), outside_line(id), repeated_line(c));
        lemma_occurs_short(marked_free_line(n), outside_line(id), repeated_line(c));
        lemma_occurs_short(orphan_line(n), repeated_line(c), marked_free_line(c));
        lemma_occurs_short(unreferenced_line(n), repeated_line(c), marked_free_line(c));
        lemma_occurs_short(outside_line(n), repeated_line(c), marked_free_line(c));
        lemma_occurs_short(repeated_line(n), repeated_line(c), marked_free_line(c));
        lemma_occurs_short(marked_free_line(n), repeated_line(c), marked_free_line(c));
        lemma_occurs_short(orphan_line(n), marked_free_line(c), repeated_line(c));
        lemma_occurs_short(unreferenced_line(n), marked_free_line(c), repeated_line(c));
        lemma_occurs_short(outside_line(n), marked_free_line(c), repeated_line(c));
        lemma_occurs_short(repeated_line(n), marked_free_line(c), repeated_line(c));
        lemma_occurs_short(marked_free_line(n), marked_free_line(c), repeated_line(c));
    }
}

impl ImageView {
    /// What the check of pointers of one inode adds to the counts.
    proof fn lemma_pointers_occurs(
        self,
        id: nat,
        before: Seq<u32>,
        ptrs: Seq<u32>,
        m: int,
        n: nat,
    )
        requires
            0 <= m <= ptrs.len(),
        ensures
            ({
                let lines = self.pointers_issues(id as int, before, ptrs, m);
                let part = ptrs.take(m);
                let old = tally(before, to_block(n));
                let new = tally(part, to_block(n));
                &&& occurs(lines, orphan_line(n)) == 0
                &&& occurs(lines, unreferenced_line(n)) == 0
                &&& occurs(lines, outside_line(n)) == if id == n {
                    tally(part, past(self.bitmap.len()))
                } else {
                    0
                }
                &&& occurs(lines, repeated_line(n)) == if n < self.bitmap.len() {
                    further(old + new) - further(old)
                } else {
                    0
                }
                &&& occurs(lines, marked_free_line(n)) == if n < self.bitmap.len()
                    && !self.bitmap[n as int] {
                    new
                } else {
                    0
                }
                &&& forall|j: int| 0 <= j < lines.len() ==> is_table_line(#[trigger] lines[j])
            }),
        decreases m,
    {
        if m > 0 {
            self.lemma_pointers_occurs(id, before, ptrs, m - 1, n);
            let head = ptrs.take(m - 1);
            let b = ptrs[m - 1];
            let known = self.pointers_issues(id as int, before, ptrs, m - 1);
            let news = self.pointer_issues(id as int, before + head, b);
            self.lemma_pointer_occurs(id, before + head, b, n);
            assert(ptrs.take(m) =~= head.push(b));
            lemma_tally_push(head, b, to_block(n));
            lemma_tally_push(head, b, past(self.bitmap.len()));
            lemma_tally_concat(before, head, to_block(n));
            lemma_names_tally(before + head, n);
            lemma_tally_concat(known, news, equals(orphan_line(n)));
            lemma_tally_concat(known, news, equals(unreferenced_line(n)));
            lemma_tally_concat(known, news, equals(outside_line(n)));
            lemma_tally_concat(known, news, equals(repeated_line(n)));
            lemma_tally_concat(known, news, equals(marked_free_line(n)));
        } else {
            assert(ptrs.take(m) =~= Seq::empty());
        }
    }

    /// What the check of the first `m` inodes adds to the counts.
    proof fn lemma_table_occurs(self, seen: Seq<bool>, m: int, n: nat)
        requires
            self.shaped(),
            0 <= m <= self.inodes.len(),
        ensures
            ({
                let lines = self.table_issues(seen, m);
                let uses = tally(self.references(m), to_block(n));
                &&& occurs(lines, orphan_line(n)) == if 0 < n < m
                    && self.inodes[n as int].allocated && !seen[n as int] {
                    1nat
                } else {
                    0nat
                }
                &&& occurs(lines, unreferenced_line(n)) == 0
                &&& occurs(lines, outside_line(n)) == if n < m {
                    self.strays(n as int)
                } else {
                    0
                }
                &&& occurs(lines, repeated_line(n)) == if n < self.bitmap.len() {
                    further(uses)
                } else {
                    0
                }
                &&& occurs(lines, marked_free_line(n)) == if n < self.bitmap.len()
                    && !self.bitmap[n as int] {
                    uses
                } else {
                    0
                }
                &&& forall|j: int| 0 <= j < lines.len() ==> is_table_line(#[trigger] lines[j])
            }),
        decreases m,
    {
        if m > 0 {
            let id = (m - 1) as nat;
            let before = self.references(m - 1);
            let ptrs = self.gather(m - 1);
            let known = self.table_issues(seen, m - 1);
            let orphans = self.orphan_issues(m - 1, seen);
            let rest = self.pointers_issues(m - 1, before, ptrs, ptrs.len() as int);
            self.lemma_table_occurs(seen, m - 1, n);
            self.lemma_pointers_occurs(id, before, ptrs, ptrs.len() as int, n);
            assert(ptrs.take(ptrs.len() as int) =~= ptrs);
            lemma_tally_concat(before, ptrs, to_block(n));
            self.lemma_gather_tally(m - 1, past(self.bitmap.len()));
            lemma_table_lines(id);
            lemma_table_lines(n);
            if id != n {
                lemma_lines_differ(id, n);
            }
            assert(is_table_line(orphan_line(id)));
            lemma_occurs_short(orphan_line(n), orphan_line(id), orphan_line(id));
            lemma_occurs_short(unreferenced_line(n), orphan_line(id), orphan_line(id));
            lemma_occurs_short(outside_line(n), orphan_line(id), orphan_line(id));
            lemma_occurs_short(repeated_line(n), orphan_line(id), orphan_line(id));
            lemma_occurs_short(marked_free_line(n), orphan_line(id), orphan_line(id));
            self.lemma_three_parts(known, orphans, rest, orphan_line(n));
            self.lemma_three_parts(known, orphans, rest, unreferenced_line(n));
            self.lemma_three_parts(known, orphans, rest, outside_line(n));
            self.lemma_three_parts(known, orphans, rest, repeated_line(n));
            self.lemma_three_parts(known, orphans, rest, marked_free_line(n));
        }
    }

    /// The counts of three parts of a report add up.
    proof fn lemma_three_parts(
        self,
        a: Seq<Seq<char>>,
        b: Seq<Seq<char>>,
        c: Seq<Seq<char>>,
        line: Seq<char>,
    )
        ensures
            occurs(a + b + c, line) == occurs(a, line) + occurs(b, line) + occurs(c, line),
    {
        let p = equals(line);
        lemma_tally_concat(a, b, p);
        lemma_tally_concat(a + b, c, p);
    }

    /// What the check of the first `m` blocks adds to the counts.
    proof fn lemma_bitmap_occurs(self, m: int, n: nat)
        requires
            0 <= m,
        ensures
            ({
                let lines = self.bitmap_issues(m);
                &&& occurs(lines, unreferenced_line(n)) == if n < m && self.bitmap[n as int]
                    && !names_block(self.references(INODE_COUNT as int), n as int) {
                    1nat
                } else {
                    0nat
                }
                &&& forall|j: int| 0 <= j < lines.len() ==> is_bitmap_line(#[trigger] lines[j])
            }),
        decreases m,
    {
        if m > 0 {
            self.lemma_bitmap_occurs(m - 1, n);
            let b = (m - 1) as nat;
            if b != n {
                lemma_lines_differ(b, n);
            }
            assert(is_bitmap_line(unreferenced_line(b)));
            lemma_tally_push(
                self.bitmap_issues(m - 1),
                unreferenced_line(b),
                equals(unreferenced_line(n)),
            );
        }
    }
}

/// A line that no line of `lines` can be does not occur.
proof fn lemma_absent(lines: Seq<Seq<char>>, line: Seq<char>)
    requires
        forall|j: int| 0 <= j < lines.len() ==> #[trigger] lines[j] != line,
    ensures
        occurs(lines, line) == 0,
{
    lemma_tally_none(lines, equals(line));
}

/// How the lines of each part begin and end.
proof fn lemma_line_shapes(line: Seq<char>)
    ensures
        is_tree_line(line) ==> line[0] == 'd' || line[0] == 'e' || line[0] == 'f',
        is_table_line(line) ==> (line[0] == 'i' || line[0] == 'b') && line.last() != 'd',
        is_bitmap_line(line) ==> line[0] == 'b' && line.last() == 'd',
{
    let none = ErrorView::OutOfSpace;
    if is_tree_line(line) {
        if exists|x: nat| line == #[trigger] invalid_line(x) {
            let x = choose|x: nat| line == #[trigger] invalid_line(x);
            lemma_tree_lines(x, Seq::empty(), none);
        } else if exists|name: Seq<char>| line == #[trigger] stale_line(name) {
            let name = choose|name: Seq<char>| line == #[trigger] stale_line(name);
            lemma_tree_lines(0, name, none);
        } else {
            let (d, e) = choose|d: nat, e: ErrorView| line == #[trigger] unreadable_line(d, e);
            lemma_tree_lines(d, Seq::empty(), e);
        }
    }
    if is_table_line(line) {
        if exists|i: nat| line == #[trigger] orphan_line(i) {
            lemma_table_lines(choose|i: nat| line == #[trigger] orphan_line(i));
        } else if exists|i: nat| line == #[trigger] outside_line(i) {
            lemma_table_lines(choose|i: nat| line == #[trigger] outside_line(i));
        } else if exists|b: nat| line == #[trigger] repeated_line(b) {
            lemma_table_lines(choose|b: nat| line == #[trigger] repeated_line(b));
        } else {
            lemma_table_lines(choose|b: nat| line == #[trigger] marked_free_line(b));
        }
    }
    if is_bitmap_line(line) {
        lemma_table_lines(choose|b: nat| line == #[trigger] unreferenced_line(b));
    }
}

impl ImageView {
    /// The entry `e` is in use, and `line` tells what is wrong with it.
    pub open spec fn flawed(self, e: EntryView, line: Seq<char>) -> bool {
        &&& e.used
        &&& if e.inode >= INODE_COUNT {
            line == invalid_line(e.inode as nat)
        } else {
            !self.inodes[e.inode as int].allocated && line == stale_line(e.name)
        }
    }

    /// The test for entries of which `line` tells what is wrong.
    pub open spec fn flawed_by(self, line: Seq<char>) -> spec_fn(EntryView) -> bool {
        |e: EntryView| self.flawed(e, line)
    }

    /// How often `line` tells what is wrong with the directory `d`.
    pub open spec fn flaws(self, d: int, line: Seq<char>) -> nat {
        if self.inodes[d].kind != FileKind::Directory {
            0
        } else {
            match self.entries(self.inodes[d]) {
                Ok(es) => tally(es, self.flawed_by(line)),
                Err(e) => if line == unreadable_line(d as nat, e) {
                    1
                } else {
                    0
                },
            }
        }
    }

    /// How often `line` tells what is wrong with the inodes in `seen`.
    pub open spec fn flaws_in(self, seen: Seq<bool>, line: Seq<char>) -> nat {
        sum_to(INODE_COUNT as int, self.flaws_where(seen, line))
    }

    /// How often `line` tells what is wrong with each inode in `seen`.
    pub open spec fn flaws_where(self, seen: Seq<bool>, line: Seq<char>) -> spec_fn(int) -> nat {
        |d: int|
            if seen[d] {
                self.flaws(d, line)
            } else {
                0
            }
    }

    /// How often `line` tells what is wrong with each inode of the tree.
    pub open spec fn tree_flaws(self, line: Seq<char>) -> spec_fn(int) -> nat {
        |d: int|
            if self.attached(d) {
                self.flaws(d, line)
            } else {
                0
            }
    }

    /// One more inode seen adds its flaws.
    proof fn lemma_flaws_seen(self, seen: Seq<bool>, d: int, line: Seq<char>, n: int)
        requires
            seen.len() == INODE_COUNT,
            0 <= d < INODE_COUNT,
            !seen[d],
            0 <= n <= INODE_COUNT,
        ensures
            sum_to(n, self.flaws_where(seen.update(d, true), line)) == sum_to(
                n,
                self.flaws_where(seen, line),
            ) + if d < n {
                self.flaws(d, line)
            } else {
                0
            },
        decreases n,
    {
        if n > 0 {
            self.lemma_flaws_seen(seen, d, line, n - 1);
        }
    }

    /// A walk notes what is wrong with the directories that it newly came to,
    /// and nothing else.
    proof fn lemma_walk_occurs(self, depth: nat, dir: u32, w: WalkView, line: Seq<char>)
        requires
            self.inodes.len() == INODE_COUNT,
            w.seen.len() == INODE_COUNT,
            forall|j: int| 0 <= j < w.issues.len() ==> is_tree_line(#[trigger] w.issues[j]),
        ensures
            ({
                let w2 = self.walk(depth, dir, w);
                &&& occurs(w2.issues, line) + self.flaws_in(w.seen, line) == occurs(w.issues, line)
                    + self.flaws_in(w2.seen, line)
                &&& forall|j: int|
                    0 <= j < w2.issues.len() ==> is_tree_line(#[trigger] w2.issues[j])
            }),
        decreases depth, 0nat,
    {
        let w2 = self.walk(depth, dir, w);
        if depth > 0 && dir < w.seen.len() && !w.seen[dir as int] {
            let entered = w.with_seen(dir as int);
            self.lemma_flaws_seen(w.seen, dir as int, line, INODE_COUNT as int);
            if self.inodes[dir as int].kind == FileKind::Directory {
                match self.entries(self.inodes[dir as int]) {
                    Ok(es) => {
                        self.lemma_walk_entries_occurs(
                            (depth - 1) as nat,
                            es,
                            es.len(),
                            entered,
                            line,
                        );
                        assert(es.take(es.len() as int) =~= es);
                    },
                    Err(e) => {
                        let found = unreadable_line(dir as nat, e);
                        lemma_tally_push(w.issues, found, equals(line));
                        assert(is_tree_line(found));
                        assert(w2.issues == w.issues.push(found));
                    },
                }
            }
        }
    }

    /// A walk through entries notes what is wrong with them and with the
    /// directories that it newly came to, and nothing else.
    proof fn lemma_walk_entries_occurs(
        self,
        depth: nat,
        es: Seq<EntryView>,
        n: nat,
        w: WalkView,
        line: Seq<char>,
    )
        requires
            self.inodes.len() == INODE_COUNT,
            w.seen.len() == INODE_COUNT,
            n <= es.len(),
            forall|j: int| 0 <= j < w.issues.len() ==> is_tree_line(#[trigger] w.issues[j]),
        ensures
            ({
                let w2 = self.walk_entries(depth, es, n, w);
                &&& occurs(w2.issues, line) + self.flaws_in(w.seen, line) == occurs(w.issues, line)
                    + self.flaws_in(w2.seen, line) + tally(
                    es.take(n as int),
                    self.flawed_by(line),
                )
                &&& forall|j: int|
                    0 <= j < w2.issues.len() ==> is_tree_line(#[trigger] w2.issues[j])
            }),
        decreases depth, n,
    {
        let p = self.flawed_by(line);
        if n > 0 {
            let m = (n - 1) as nat;
            self.lemma_walk_entries_occurs(depth, es, m, w, line);
            self.lemma_walk_entries_grows(depth, es, m, w);
            let before = self.walk_entries(depth, es, m, w);
            let e = es[n - 1];
            assert(es.take(n as int) =~= es.take(m as int).push(e));
            lemma_tally_push(es.take(m as int), e, p);
            if e.used {
                let visited = self.visit(e, before);
                let same = equals(line);
                lemma_tally_push(before.issues, invalid_line(e.inode as nat), same);
                lemma_tally_push(before.issues, stale_line(e.name), same);
                assert(is_tree_line(invalid_line(e.inode as nat)));
                assert(is_tree_line(stale_line(e.name)));
                if e.inode >= INODE_COUNT {
                    assert(visited.issues == before.issues.push(invalid_line(e.inode as nat)));
                } else if !self.inodes[e.inode as int].allocated {
                    assert(visited.issues == before.issues.push(stale_line(e.name)));
                }
                assert(visited.seen == before.seen);
                self.lemma_walk_occurs(depth, e.inode, visited, line);
            }
        } else {
            assert(es.take(0) =~= Seq::empty());
        }
    }

    /// What the walk through the whole tree notes.
    proof fn lemma_walked_occurs(self, line: Seq<char>)
        requires
            self.inodes.len() == INODE_COUNT,
        ensures
            occurs(self.walked().issues, line) == sum_to(INODE_COUNT as int, self.tree_flaws(line)),
            forall|j: int|
                0 <= j < self.walked().issues.len() ==> is_tree_line(
                    #[trigger] self.walked().issues[j],
                ),
    {
        let w = self.walked();
        let none = no_walk();
        self.lemma_walk_occurs((INODE_COUNT + 1) as nat, 0, none, line);
        self.lemma_walked();
        lemma_sum_one(INODE_COUNT as int, self.flaws_where(none.seen, line), -1);
        lemma_sum_same(
            INODE_COUNT as int,
            self.flaws_where(w.seen, line),
            self.tree_flaws(line),
        );
    }

    /// The three parts of the report: what is wrong with the tree, with the
    /// inodes, and with the bitmap.
    pub proof fn lemma_report_parts(self, line: Seq<char>)
        requires
            self.shaped(),
        ensures
            ({
                let w = self.walked();
                let table = self.table_issues(w.seen, INODE_COUNT as int);
                let last = self.bitmap_issues(self.bitmap.len() as int);
                &&& self.issues() == w.issues + table + last
                &&& occurs(self.issues(), line) == occurs(w.issues, line) + occurs(table, line)
                    + occurs(last, line)
                &&& !is_tree_line(line) ==> occurs(w.issues, line) == 0
                &&& !is_table_line(line) ==> occurs(table, line) == 0
                &&& !is_bitmap_line(line) ==> occurs(last, line) == 0
                &&& forall|j: int|
                    0 <= j < w.issues.len() ==> is_tree_line(#[trigger] w.issues[j])
                &&& forall|j: int| 0 <= j < table.len() ==> is_table_line(#[trigger] table[j])
                &&& forall|j: int| 0 <= j < last.len() ==> is_bitmap_line(#[trigger] last[j])
            }),
    {
        let w = self.walked();
        let table = self.table_issues(w.seen, INODE_COUNT as int);
        let last = self.bitmap_issues(self.bitmap.len() as int);
        self.lemma_walked_occurs(line);
        self.lemma_table_occurs(w.seen, INODE_COUNT as int, 0);
        self.lemma_bitmap_occurs(self.bitmap.len() as int, 0);
        self.lemma_three_parts(w.issues, table, last, line);
        if !is_tree_line(line) {
            lemma_absent(w.issues, line);
        }
        if !is_table_line(line) {
            lemma_absent(table, line);
        }
        if !is_bitmap_line(line) {
            lemma_absent(last, line);
        }
    }
}

/// What the consistency check reports of inode `i`: exactly once that it is an
/// orphan, if it is in use, is not the root and does not hang in the tree; and
/// once for each of its pointers that leads outside the data area.
pub proof fn law_report_inodes(img: ImageView, i: nat)
    requires
        img.shaped(),
    ensures
        occurs(img.issues(), orphan_line(i)) == if 0 < i < INODE_COUNT
            && img.inodes[i as int].allocated && !img.attached(i as int) {
            1nat
        } else {
            0nat
        },
        occurs(img.issues(), outside_line(i)) == if i < INODE_COUNT {
            img.strays(i as int)
        } else {
            0
        },
{
    let w = img.walked();
    img.lemma_walked();
    img.lemma_table_occurs(w.seen, INODE_COUNT as int, i);
    lemma_line_shapes(orphan_line(i));
    lemma_line_shapes(outside_line(i));
    assert(is_table_line(orphan_line(i)) && is_table_line(outside_line(i)));
    img.lemma_report_parts(orphan_line(i));
    img.lemma_report_parts(outside_line(i));
}

/// What the consistency check reports of block `b`: once for each pointer to it
/// but the first; once for each pointer to it, if it is marked free; and exactly
/// once that it is marked used though no pointer leads to it, if that is so.
pub proof fn law_report_blocks(img: ImageView, b: nat)
    requires
        img.shaped(),
    ensures
        occurs(img.issues(), repeated_line(b)) == if b < img.bitmap.len() && img.uses(b) > 0 {
            img.uses(b) - 1
        } else {
            0
        },
        occurs(img.issues(), marked_free_line(b)) == if b < img.bitmap.len()
            && !img.bitmap[b as int] {
            img.uses(b)
        } else {
            0
        },
        occurs(img.issues(), unreferenced_line(b)) == if b < img.bitmap.len()
            && img.bitmap[b as int] && img.uses(b) == 0 {
            1nat
        } else {
            0nat
        },
{
    let w = img.walked();
    img.lemma_table_occurs(w.seen, INODE_COUNT as int, b);
    img.lemma_references_tally(INODE_COUNT as int, b);
    lemma_names_tally(img.references(INODE_COUNT as int), b);
    img.lemma_bitmap_occurs(img.bitmap.len() as int, b);
    lemma_line_shapes(repeated_line(b));
    lemma_line_shapes(marked_free_line(b));
    lemma_line_shapes(unreferenced_line(b));
    assert(is_table_line(repeated_line(b)) && is_table_line(marked_free_line(b)));
    assert(is_bitmap_line(unreferenced_line(b)));
    img.lemma_report_parts(repeated_line(b));
    img.lemma_report_parts(marked_free_line(b));
    img.lemma_report_parts(unreferenced_line(b));
}

/// What the consistency check reports of the entries of the directories in the
/// tree: one line for each entry in use that names an inode that there is not,
/// and one for each that names an inode that is not in use.
pub proof fn law_report_entries(img: ImageView, x: nat, name: Seq<char>)
    requires
        img.shaped(),
    ensures
        occurs(img.issues(), invalid_line(x)) == if x >= INODE_COUNT {
            sum_to(INODE_COUNT as int, img.tree_tally(names_id(x)))
        } else {
            0
        },
        occurs(img.issues(), stale_line(name)) == sum_to(
            INODE_COUNT as int,
            img.tree_tally(img.names_unused(name)),
        ),
{
    let invalid = invalid_line(x);
    let stale = stale_line(name);
    let none = ErrorView::OutOfSpace;
    lemma_tree_lines(x, name, none);
    lemma_line_shapes(invalid);
    lemma_line_shapes(stale);
    assert(is_tree_line(invalid) && is_tree_line(stale));
    img.lemma_report_parts(invalid);
    img.lemma_report_parts(stale);
    img.lemma_walked_occurs(invalid);
    img.lemma_walked_occurs(stale);
    let unused = img.names_unused(name);
    let f = img.tree_flaws(invalid);
    let g = img.tree_tally(names_id(x));
    let f2 = img.tree_flaws(stale);
    let g2 = img.tree_tally(unused);
    assert forall|d: int|
        #![trigger f(d)]
        #![trigger f2(d)]
        0 <= d < INODE_COUNT implies {
        &&& f(d) == if x >= INODE_COUNT {
            g(d)
        } else {
            0
        }
        &&& f2(d) == g2(d)
    } by {
        let es = img.tree_entries(d);
        if img.attached(d) && img.inodes[d].kind == FileKind::Directory {
            match img.entries(img.inodes[d]) {
                Ok(_) => {
                    let p = img.flawed_by(invalid);
                    let q = names_id(x);
                    let r = img.flawed_by(stale);
                    assert forall|i: int| 0 <= i < es.len() implies {
                        &&& p(#[trigger] es[i]) == (x >= INODE_COUNT && q(es[i]))
                        &&& r(es[i]) == unused(es[i])
                    } by {
                        let e = es[i];
                        lemma_tree_lines(e.inode as nat, e.name, none);
                        lemma_names_differ(e.name, name);
                        if e.inode != x {
                            lemma_lines_differ(e.inode as nat, x);
                        }
                    }
                    lemma_tally_same(es, r, unused);
                    if x >= INODE_COUNT {
                        lemma_tally_same(es, p, q);
                    } else {
                        lemma_tally_none(es, p);
                    }
                },
                Err(e) => {
                    lemma_tree_lines(d as nat, Seq::empty(), e);
                },
            }
        }
    }
    if x >= INODE_COUNT {
        lemma_sum_same(INODE_COUNT as int, f, g);
    } else {
        lemma_sum_one(INODE_COUNT as int, f, -1);
    }
    lemma_sum_same(INODE_COUNT as int, f2, g2);
}

/// The consistency check reports each directory of the tree that cannot be read
/// exactly once, with the reason, and no other.
pub proof fn law_report_unreadable(img: ImageView, d: nat, e: ErrorView)
    requires
        img.shaped(),
    ensures
        occurs(img.issues(), unreadable_line(d, e)) == if d < INODE_COUNT && img.attached(d as int)
            && img.inodes[d as int].kind == FileKind::Directory && (img.entries(
            img.inodes[d as int],
        ) matches Err(x) && error_message(x) == error_message(e)) {
            1nat
        } else {
            0nat
        },
{
    let line = unreadable_line(d, e);
    lemma_tree_lines(d, Seq::empty(), e);
    lemma_line_shapes(line);
    assert(is_tree_line(line));
    img.lemma_report_parts(line);
    img.lemma_walked_occurs(line);
    let f = img.tree_flaws(line);
    assert forall|i: int| 0 <= i < INODE_COUNT implies #[trigger] f(i) == if i == d && img.attached(
        i,
    ) && img.inodes[i].kind == FileKind::Directory && (img.entries(img.inodes[i]) matches Err(x)
        && error_message(x) == error_message(e)) {
        1nat
    } else {
        0nat
    } by {
        match img.entries(img.inodes[i]) {
            Ok(es) => {
                let p = img.flawed_by(line);
                assert forall|j: int| 0 <= j < es.len() implies !p(#[trigger] es[j]) by {
                    lemma_tree_lines(es[j].inode as nat, es[j].name, e);
                }
                lemma_tally_none(es, p);
            },
            Err(x) => {
                lemma_unreadable_differ(d, e, i as nat, x);
            },
        }
    }
    lemma_sum_one(INODE_COUNT as int, f, d as int);
}

/// The report comes in three parts: first the lines about directories and their
/// entries, then those about inodes in use and their pointers, then those about
/// blocks without pointers. There are no other lines.
pub proof fn law_report_parts(img: ImageView)
    requires
        img.shaped(),
    ensures
        exists|a: int, b: int| #[trigger] img.report_splits(a, b),
{
    let w = img.walked();
    let table = img.table_issues(w.seen, INODE_COUNT as int);
    img.lemma_report_parts(Seq::empty());
    let a = w.issues.len() as int;
    let b = a + table.len();
    let all = img.issues();
    assert forall|j: int| 0 <= j < all.len() implies {
        &&& j < a ==> is_tree_line(#[trigger] all[j])
        &&& a <= j < b ==> is_table_line(all[j])
        &&& b <= j ==> is_bitmap_line(all[j])
    } by {
        if j < a {
            assert(all[j] == w.issues[j]);
        } else if j < b {
            assert(all[j] == table[j - a]);
        } else {
            assert(all[j] == img.bitmap_issues(img.bitmap.len() as int)[j - b]);
        }
    }
    assert(img.report_splits(a, b));
}

impl ImageView {
    /// The first `a` lines of the report are about directories, the next up to
    /// `b` about inodes in use, and the others about blocks without pointers.
    pub open spec fn report_splits(self, a: int, b: int) -> bool {
        let all = self.issues();
        &&& 0 <= a <= b <= all.len()
        &&& forall|j: int|
            0 <= j < all.len() ==> {
                &&& j < a ==> is_tree_line(#[trigger] all[j])
                &&& a <= j < b ==> is_table_line(all[j])
                &&& b <= j ==> is_bitmap_line(all[j])
            }
    }

    /// What is reported of the first inodes comes first.
    proof fn lemma_table_prefix(self, seen: Seq<bool>, k: int, m: int)
        requires
            0 <= k <= m,
        ensures
            self.table_issues(seen, k).len() <= self.table_issues(seen, m).len(),
            self.table_issues(seen, m) == self.table_issues(seen, k) + self.table_issues(
                seen,
                m,
            ).skip(self.table_issues(seen, k).len() as int),
        decreases m - k,
    {
        let head = self.table_issues(seen, k);
        let all = self.table_issues(seen, m);
        if k < m {
            self.lemma_table_prefix(seen, k, m - 1);
            let most = self.table_issues(seen, m - 1);
            assert forall|j: int| 0 <= j < head.len() implies all[j] == head[j] by {
                assert(all[j] == most[j]);
                assert(most[j] == (head + most.skip(head.len() as int))[j]);
            }
        }
        assert(all =~= head + all.skip(head.len() as int));
    }

    /// What is reported of the first blocks comes first.
    proof fn lemma_bitmap_prefix(self, k: int, m: int)
        requires
            0 <= k <= m,
        ensures
            self.bitmap_issues(k).len() <= self.bitmap_issues(m).len(),
            self.bitmap_issues(m) == self.bitmap_issues(k) + self.bitmap_issues(m).skip(
                self.bitmap_issues(k).len() as int,
            ),
        decreases m - k,
    {
        let head = self.bitmap_issues(k);
        let all = self.bitmap_issues(m);
        if k < m {
            self.lemma_bitmap_prefix(k, m - 1);
            let most = self.bitmap_issues(m - 1);
            assert forall|j: int| 0 <= j < head.len() implies all[j] == head[j] by {
                assert(all[j] == most[j]);
                assert(most[j] == (head + most.skip(head.len() as int))[j]);
            }
        }
        assert(all =~= head + all.skip(head.len() as int));
    }
}

/// A line that occurs in a beginning as often as in the whole stands in the
/// beginning, and one that does not occur in it stands behind it.
proof fn lemma_where(head: Seq<Seq<char>>, tail: Seq<Seq<char>>, line: Seq<char>, j: int)
    requires
        0 <= j < (head + tail).len(),
        (head + tail)[j] == line,
    ensures
        occurs(head + tail, line) == occurs(head, line) ==> j < head.len(),
        occurs(head, line) == 0 ==> j >= head.len(),
{
    let p = equals(line);
    lemma_tally_concat(head, tail, p);
    lemma_tally_none(head, p);
    lemma_tally_none(tail, p);
    if j < head.len() {
        assert(p(head[j]));
    } else {
        assert(p(tail[j - head.len()]));
    }
}

/// The report goes through the inodes and through the blocks in order: what it
/// says of an inode stands before what it says of a later one, and likewise for
/// blocks that are marked used without pointers.
pub proof fn law_report_order(img: ImageView, i: nat, j: nat, p: int, q: int)
    requires
        img.shaped(),
        i < j,
        0 <= p < img.issues().len(),
        0 <= q < img.issues().len(),
    ensures
        (img.issues()[p] == orphan_line(i) || img.issues()[p] == outside_line(i)) && (img.issues()[q]
            == orphan_line(j) || img.issues()[q] == outside_line(j)) ==> p < q,
        img.issues()[p] == orphan_line(i) && img.issues()[q] == outside_line(i) ==> p < q,
        img.issues()[p] == unreferenced_line(i) && img.issues()[q] == unreferenced_line(j)
            ==> p < q,
{
    let all = img.issues();
    let w = img.walked();
    let seen = w.seen;
    let count = INODE_COUNT as int;
    let table = img.table_issues(seen, count);
    let last = img.bitmap_issues(img.bitmap.len() as int);
    let lp = all[p];
    let lq = all[q];
    img.lemma_report_parts(lp);
    img.lemma_report_parts(lq);
    lemma_line_shapes(lp);
    lemma_line_shapes(lq);
    let a = w.issues.len() as int;
    let b = a + table.len();
    assert forall|x: int| 0 <= x < all.len() implies {
        &&& x < a ==> #[trigger] all[x] == w.issues[x]
        &&& a <= x < b ==> all[x] == table[x - a]
        &&& b <= x ==> all[x] == last[x - b]
    } by {}
    assert forall|x: int| 0 <= x < all.len() implies {
        &&& is_table_line(#[trigger] all[x]) ==> a <= x < b
        &&& is_bitmap_line(all[x]) ==> b <= x
    } by {
        lemma_line_shapes(all[x]);
        if x < a {
            assert(is_tree_line(w.issues[x]));
        } else if x < b {
            assert(is_table_line(table[x - a]));
        } else {
            assert(is_bitmap_line(last[x - b]));
        }
    }
    if (lp == orphan_line(i) || lp == outside_line(i)) && (lq == orphan_line(j) || lq
        == outside_line(j)) {
        assert(is_table_line(lp) && is_table_line(lq));
        assert(a <= p < b && a <= q < b);
        img.lemma_table_occurs(seen, count, i);
        img.lemma_table_occurs(seen, count, j);
        assert(i < count) by {
            lemma_tally_none(table, equals(lp));
            assert(equals(lp)(table[p - a]));
        }
        assert(j < count) by {
            lemma_tally_none(table, equals(lq));
            assert(equals(lq)(table[q - a]));
        }
        let cut = (i + 1) as int;
        img.lemma_table_prefix(seen, cut, count);
        img.lemma_table_occurs(seen, cut, i);
        img.lemma_table_occurs(seen, cut, j);
        let head = img.table_issues(seen, cut);
        let tail = table.skip(head.len() as int);
        assert(table == head + tail);
        lemma_where(head, tail, lp, p - a);
        lemma_where(head, tail, lq, q - a);
    }
    if lp == orphan_line(i) && lq == outside_line(i) {
        assert(is_table_line(lp) && is_table_line(lq));
        assert(a <= p < b && a <= q < b);
        img.lemma_table_occurs(seen, count, i);
        assert(i < count) by {
            lemma_tally_none(table, equals(lp));
            assert(equals(lp)(table[p - a]));
        }
        let ptrs = img.gather(i as int);
        let before = img.references(i as int);
        let first = img.table_issues(seen, i as int);
        let orphans = img.orphan_issues(i as int, seen);
        let rest = img.pointers_issues(i as int, before, ptrs, ptrs.len() as int);
        let head = first + orphans;
        img.lemma_table_prefix(seen, (i + 1) as int, count);
        img.lemma_table_occurs(seen, i as int, i);
        let upto = img.table_issues(seen, (i + 1) as int);
        assert(upto == head + rest);
        let tail = rest + table.skip(upto.len() as int);
        assert(table =~= head + tail);
        lemma_table_lines(i);
        lemma_tally_concat(first, orphans, equals(lp));
        lemma_tally_concat(first, orphans, equals(lq));
        lemma_occurs_short(lp, orphan_line(i), orphan_line(i));
        lemma_occurs_short(lq, orphan_line(i), orphan_line(i));
        lemma_where(head, tail, lp, p - a);
        lemma_where(head, tail, lq, q - a);
    }
    if lp == unreferenced_line(i) && lq == unreferenced_line(j) {
        assert(is_bitmap_line(lp) && is_bitmap_line(lq));
        let n = img.bitmap.len() as int;
        img.lemma_bitmap_occurs(n, i);
        img.lemma_bitmap_occurs(n, j);
        assert(i < n) by {
            lemma_tally_none(last, equals(lp));
            assert(equals(lp)(last[p - b]));
        }
        let cut = (i + 1) as int;
        img.lemma_bitmap_prefix(cut, n);
        img.lemma_bitmap_occurs(cut, i);
        img.lemma_bitmap_occurs(cut, j);
        let head = img.bitmap_issues(cut);
        let tail = last.skip(head.len() as int);
        lemma_where(head, tail, lp, p - b);
        lemma_where(head, tail, lq, q - b);
    }
}

} // verus!
