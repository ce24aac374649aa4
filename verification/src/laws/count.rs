//! Counting elements.

use vstd::prelude::*;
use crate::inode::NULL_BLOCK;
use crate::model::image::live;

verus! {

/// How many elements of `s` meet `p`.
pub open spec fn tally<A>(s: Seq<A>, p: spec_fn(A) -> bool) -> nat
    decreases s.len(),
{
    if s.len() == 0 {
        0
    } else {
        tally(s.drop_last(), p) + if p(s.last()) {
            1nat
        } else {
            0nat
        }
    }
}

/// The test for being `x`.
pub open spec fn equals<A>(x: A) -> spec_fn(A) -> bool {
    |y: A| y == x
}

/// How often `x` occurs in `s`.
pub open spec fn occurs<A>(s: Seq<A>, x: A) -> nat {
    tally(s, equals(x))
}

/// The test for a pointer to block `b`.
pub open spec fn to_block(b: nat) -> spec_fn(u32) -> bool {
    |p: u32| p == b
}

/// The test for a pointer to none of the first `n` blocks.
pub open spec fn past(n: nat) -> spec_fn(u32) -> bool {
    |p: u32| p >= n
}

/// The test `p` for pointers in use.
pub open spec fn used_and(p: spec_fn(u32) -> bool) -> spec_fn(u32) -> bool {
    |b: u32| b != NULL_BLOCK && p(b)
}

/// The sum of `f` over the numbers below `n`.
pub open spec fn sum_to(n: int, f: spec_fn(int) -> nat) -> nat
    decreases n,
{
    if n <= 0 {
        0
    } else {
        sum_to(n - 1, f) + f(n - 1)
    }
}

/// Tests that agree on the elements give the same count.
pub proof fn lemma_tally_same<A>(s: Seq<A>, p: spec_fn(A) -> bool, q: spec_fn(A) -> bool)
    requires
        forall|i: int| 0 <= i < s.len() ==> p(#[trigger] s[i]) == q(s[i]),
    ensures
        tally(s, p) == tally(s, q),
    decreases s.len(),
{
    if s.len() > 0 {
        let head = s.drop_last();
        assert forall|i: int| 0 <= i < head.len() implies p(#[trigger] head[i]) == q(head[i]) by {
            assert(head[i] == s[i]);
        }
        lemma_tally_same(head, p, q);
        assert(p(s[s.len() - 1]) == q(s[s.len() - 1]));
    }
}

/// Nothing is counted exactly if no element meets the test.
pub proof fn lemma_tally_none<A>(s: Seq<A>, p: spec_fn(A) -> bool)
    ensures
        tally(s, p) == 0 <==> forall|i: int| 0 <= i < s.len() ==> !p(#[trigger] s[i]),
        tally(s, p) <= s.len(),
    decreases s.len(),
{
    if s.len() > 0 {
        let head = s.drop_last();
        lemma_tally_none(head, p);
        if tally(s, p) == 0 {
            assert forall|i: int| 0 <= i < s.len() implies !p(#[trigger] s[i]) by {
                if i < head.len() {
                    assert(!p(head[i]));
                }
            }
        }
        if forall|i: int| 0 <= i < s.len() ==> !p(#[trigger] s[i]) {
            assert(!p(s[s.len() - 1]));
            assert forall|i: int| 0 <= i < head.len() implies !p(#[trigger] head[i]) by {
                assert(!p(s[i]));
            }
        }
    }
}

/// Counts add up.
pub proof fn lemma_tally_concat<A>(a: Seq<A>, b: Seq<A>, p: spec_fn(A) -> bool)
    ensures
        tally(a + b, p) == tally(a, p) + tally(b, p),
    decreases b.len(),
{
    if b.len() == 0 {
        assert(a + b =~= a);
    } else {
        lemma_tally_concat(a, b.drop_last(), p);
        assert((a + b).drop_last() =~= a + b.drop_last());
    }
}

/// One element more.
pub proof fn lemma_tally_push<A>(s: Seq<A>, x: A, p: spec_fn(A) -> bool)
    ensures
        tally(s.push(x), p) == tally(s, p) + if p(x) {
            1nat
        } else {
            0nat
        },
{
    assert(s.push(x).drop_last() =~= s);
}

/// Sums of the same terms are the same.
pub proof fn lemma_sum_same(n: int, f: spec_fn(int) -> nat, g: spec_fn(int) -> nat)
    requires
        forall|i: int| 0 <= i < n ==> #[trigger] f(i) == g(i),
    ensures
        sum_to(n, f) == sum_to(n, g),
    decreases n,
{
    if n > 0 {
        lemma_sum_same(n - 1, f, g);
        assert(f(n - 1) == g(n - 1));
    }
}

/// A sum in which one term alone counts.
pub proof fn lemma_sum_one(n: int, f: spec_fn(int) -> nat, x: int)
    requires
        forall|i: int| 0 <= i < n && i != x ==> #[trigger] f(i) == 0,
    ensures
        sum_to(n, f) == if 0 <= x < n {
            f(x)
        } else {
            0
        },
    decreases n,
{
    if n > 0 {
        lemma_sum_one(n - 1, f, x);
        if n - 1 != x {
            assert(f(n - 1) == 0);
        }
    }
}

/// The pointers in use are the pointers but the unused ones.
pub proof fn lemma_live_tally(s: Seq<u32>, p: spec_fn(u32) -> bool)
    ensures
        tally(live(s), p) == tally(s, used_and(p)),
    decreases s.len(),
{
    if s.len() > 0 {
        lemma_live_tally(s.drop_last(), p);
        if s.last() != NULL_BLOCK {
            lemma_tally_push(live(s.drop_last()), s.last(), p);
        }
    }
}

} // verus!
