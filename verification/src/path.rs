//! Path parsing and validation utilities.
//!
//! gridfs uses a Unix-style hierarchical path syntax. Every path must be
//! absolute, i.e. begin with `/`. Empty components (created by trailing
//! slashes or `//`) are ignored. The reserved components `.` and `..` are
//! rejected to keep the implementation small and predictable.

use vstd::prelude::*;
use vstd::string::*;
use vstd::utf8::encode_utf8;
use crate::error::{ErrorView, FsError, Outcome, Result};
use crate::text::same_text;

verus! {

/// Maximum number of bytes in one path component.
pub const MAX_COMPONENT_LEN: usize = 255;

/// The characters of each string in `v`.
pub open spec fn texts(v: Seq<String>) -> Seq<Seq<char>> {
    Seq::new(v.len(), |i: int| v[i]@)
}

/// The maximal runs of characters other than `/`, from left to right.
pub open spec fn components(s: Seq<char>) -> Seq<Seq<char>>
    decreases s.len(),
{
    if s.len() == 0 {
        Seq::empty()
    } else if s.last() == '/' {
        components(s.drop_last())
    } else if s.len() == 1 || s[s.len() - 2] == '/' {
        components(s.drop_last()).push(seq![s.last()])
    } else {
        let c = components(s.drop_last());
        c.drop_last().push(c.last().push(s.last()))
    }
}

/// A component that a path may hold.
pub open spec fn valid_component(c: Seq<char>) -> bool {
    &&& c != "."@
    &&& c != ".."@
    &&& encode_utf8(c).len() <= MAX_COMPONENT_LEN
}

/// The components of an absolute path.
pub open spec fn split(path: Seq<char>) -> Outcome<Seq<Seq<char>>> {
    let parts = components(path);
    if path.len() > 0 && path[0] == '/' && forall|i: int|
        0 <= i < parts.len() ==> valid_component(#[trigger] parts[i]) {
        Ok(parts)
    } else {
        Err(ErrorView::InvalidPath(path))
    }
}

/// The components of the parent, and the final component.
pub open spec fn split_last(path: Seq<char>) -> Outcome<Option<(Seq<Seq<char>>, Seq<char>)>> {
    match split(path) {
        Ok(parts) => if parts.len() == 0 {
            Ok(None)
        } else {
            Ok(Some((parts.drop_last(), parts.last())))
        },
        Err(e) => Err(e),
    }
}

proof fn lemma_components_nonempty(s: Seq<char>)
    requires
        s.len() > 0,
        s.last() != '/',
    ensures
        components(s).len() > 0,
    decreases s.len(),
{
    if s.len() > 1 && s[s.len() - 2] != '/' {
        assert(s.drop_last().last() == s[s.len() - 2]);
        lemma_components_nonempty(s.drop_last());
    }
}

/// A slash separates: the components around it are the components before it
/// followed by those after it. So slashes in a row, and slashes at the end,
/// add no component.
pub proof fn law_slash_separates(a: Seq<char>, b: Seq<char>)
    ensures
        components(a + seq!['/'] + b) == components(a) + components(b),
    decreases b.len(),
{
    let s = a + seq!['/'] + b;
    if b.len() == 0 {
        assert(s =~= a.push('/'));
        assert(s.drop_last() =~= a);
        assert(components(a) + components(b) =~= components(a));
    } else {
        let t = b.drop_last();
        law_slash_separates(a, t);
        assert(s.drop_last() =~= a + seq!['/'] + t);
        assert(s.last() == b.last());
        if b.last() != '/' {
            if b.len() == 1 {
                assert(s[s.len() - 2] == '/');
                assert(components(a) + components(b) =~= (components(a) + components(t)).push(
                    seq![b.last()],
                ));
            } else {
                assert(s[s.len() - 2] == b[b.len() - 2]);
                if b[b.len() - 2] == '/' {
                    assert(components(a) + components(b) =~= (components(a) + components(t)).push(
                        seq![b.last()],
                    ));
                } else {
                    assert(t.last() == b[b.len() - 2]);
                    lemma_components_nonempty(t);
                    let c = components(a) + components(t);
                    assert(c.last() == components(t).last());
                    assert(components(a) + components(b) =~= c.drop_last().push(
                        c.last().push(b.last()),
                    ));
                }
            }
        }
    }
}

/// Slashes in a row are one slash, and slashes at the end are none: they do not
/// change what a path splits into.
pub proof fn law_extra_slashes(a: Seq<char>, b: Seq<char>)
    requires
        a.len() > 0,
        a[0] == '/',
    ensures
        ({
            let one = split(a + seq!['/'] + b);
            let two = split(a + seq!['/', '/'] + b);
            &&& one is Ok <==> two is Ok
            &&& one is Ok ==> one == two
        }),
        ({
            let none = split(a);
            let end = split(a.push('/'));
            &&& none is Ok <==> end is Ok
            &&& none is Ok ==> none == end
        }),
{
    let empty = Seq::<char>::empty();
    law_slash_separates(a, b);
    law_slash_separates(a + seq!['/'], b);
    law_slash_separates(a, empty);
    assert(a + seq!['/', '/'] + b =~= (a + seq!['/']) + seq!['/'] + b);
    assert(a + seq!['/'] + empty =~= a + seq!['/']);
    assert(a.push('/') =~= a + seq!['/']);
    assert(components(a) + components(empty) =~= components(a));
}

/// A run without slashes is its own only component.
pub proof fn lemma_single_component(c: Seq<char>)
    requires
        c.len() > 0,
        forall|i: int| 0 <= i < c.len() ==> c[i] != '/',
    ensures
        components(c) == seq![c],
    decreases c.len(),
{
    let t = c.drop_last();
    if c.len() == 1 {
        assert(components(t) =~= Seq::<Seq<char>>::empty());
        assert(components(c) =~= seq![c]) by {
            assert(seq![c.last()] =~= c);
        }
    } else {
        lemma_single_component(t);
        assert(c[c.len() - 2] != '/');
        assert(t.push(c.last()) =~= c);
        assert(components(c) =~= seq![c]);
    }
}

/// The path that names `parts` from the root down, each behind a slash.
pub open spec fn join(parts: Seq<Seq<char>>) -> Seq<char>
    decreases parts.len(),
{
    if parts.len() == 0 {
        Seq::empty()
    } else {
        join(parts.drop_last()) + seq!['/'] + parts.last()
    }
}

/// A non-empty run of characters other than `/`.
pub open spec fn plain_name(c: Seq<char>) -> bool {
    &&& c.len() > 0
    &&& forall|i: int| 0 <= i < c.len() ==> c[i] != '/'
}

/// A name that a path can have as a component.
pub open spec fn proper_name(c: Seq<char>) -> bool {
    plain_name(c) && valid_component(c)
}

proof fn lemma_components_of_join(parts: Seq<Seq<char>>)
    requires
        forall|i: int| 0 <= i < parts.len() ==> plain_name(#[trigger] parts[i]),
    ensures
        components(join(parts)) == parts,
        parts.len() > 0 ==> join(parts).len() > 0 && join(parts)[0] == '/',
    decreases parts.len(),
{
    if parts.len() > 0 {
        let t = parts.drop_last();
        lemma_components_of_join(t);
        law_slash_separates(join(t), parts.last());
        assert(plain_name(parts[parts.len() - 1]));
        lemma_single_component(parts.last());
        assert(components(join(parts)) =~= parts);
        if t.len() == 0 {
            assert(join(t) =~= Seq::<char>::empty());
        }
    } else {
        assert(components(join(parts)) =~= parts);
    }
}

/// Splitting undoes joining: the path built from valid names splits into
/// those names again.
pub proof fn law_split_join(parts: Seq<Seq<char>>)
    requires
        parts.len() > 0,
        forall|i: int|
            0 <= i < parts.len() ==> proper_name(#[trigger] parts[i]),
    ensures
        split(join(parts)) == Ok::<Seq<Seq<char>>, ErrorView>(parts),
{
    lemma_components_of_join(parts);
}

proof fn lemma_components_plain(s: Seq<char>)
    ensures
        forall|i: int|
            0 <= i < components(s).len() ==> plain_name(#[trigger] components(s)[i]),
    decreases s.len(),
{
    if s.len() > 0 {
        let t = s.drop_last();
        lemma_components_plain(t);
        let c = components(t);
        if s.last() != '/' && s.len() > 1 && s[s.len() - 2] != '/' {
            assert(t.last() == s[s.len() - 2]);
            lemma_components_nonempty(t);
            let w = c.last().push(s.last());
            assert(plain_name(c[c.len() - 1]));
            assert(plain_name(w));
        } else if s.last() != '/' {
            assert(plain_name(seq![s.last()]));
        }
    }
}

/// Every component of an accepted path is a non-empty name without slashes,
/// is neither `.` nor `..`, and has at most 255 bytes.
pub proof fn law_split_components(path: Seq<char>)
    requires
        split(path) is Ok,
    ensures
        forall|i: int|
            0 <= i < split(path)->Ok_0.len() ==> proper_name(#[trigger] split(path)->Ok_0[i]),
{
    lemma_components_plain(path);
}

/// What becomes of a path that is built from names: it splits into those names
/// if each of them is neither `.` nor `..` and has at most 255 bytes, and is
/// refused otherwise.
pub proof fn law_split_decides(parts: Seq<Seq<char>>)
    requires
        parts.len() > 0,
        forall|i: int| 0 <= i < parts.len() ==> (#[trigger] parts[i]).len() > 0,
        forall|i: int, j: int|
            0 <= i < parts.len() && 0 <= j < parts[i].len() ==> #[trigger] parts[i][j] != '/',
    ensures
        split(join(parts)) == if forall|i: int|
            0 <= i < parts.len() ==> {
                &&& #[trigger] parts[i] != seq!['.']
                &&& parts[i] != seq!['.', '.']
                &&& encode_utf8(parts[i]).len() <= 255
            } {
            Ok::<Seq<Seq<char>>, ErrorView>(parts)
        } else {
            Err(ErrorView::InvalidPath(join(parts)))
        },
{
    assert forall|i: int| 0 <= i < parts.len() implies plain_name(#[trigger] parts[i]) by {}
    lemma_components_of_join(parts);
    reveal_strlit(".");
    reveal_strlit("..");
    assert("."@ =~= seq!['.']);
    assert(".."@ =~= seq!['.', '.']);
    assert forall|i: int| 0 <= i < parts.len() implies (valid_component(#[trigger] parts[i]) <==> {
        &&& parts[i] != seq!['.']
        &&& parts[i] != seq!['.', '.']
        &&& encode_utf8(parts[i]).len() <= 255
    }) by {}
}

/// What the components of any text are: a slash separates those before it from
/// those behind it, a text without slashes is its own component, and an empty
/// text has none.
pub proof fn law_components(a: Seq<char>, b: Seq<char>, c: Seq<char>)
    ensures
        components(a + seq!['/'] + b) == components(a) + components(b),
        c.len() > 0 && (forall|i: int| 0 <= i < c.len() ==> c[i] != '/') ==> components(c)
            == seq![c],
        components(Seq::empty()) == Seq::<Seq<char>>::empty(),
{
    law_slash_separates(a, b);
    if c.len() > 0 && (forall|i: int| 0 <= i < c.len() ==> c[i] != '/') {
        lemma_single_component(c);
    }
}

/// Which paths are accepted: those that start with a slash and have no component
/// `.`, `..` or of more than 255 bytes. They split into their components.
pub proof fn law_split_accepts(path: Seq<char>)
    ensures
        ({
            let parts = components(path);
            split(path) == if path.len() > 0 && path[0] == '/' && forall|i: int|
                0 <= i < parts.len() ==> {
                    &&& #[trigger] parts[i] != seq!['.']
                    &&& parts[i] != seq!['.', '.']
                    &&& encode_utf8(parts[i]).len() <= 255
                } {
                Ok::<Seq<Seq<char>>, ErrorView>(parts)
            } else {
                Err(ErrorView::InvalidPath(path))
            }
        }),
{
    let parts = components(path);
    reveal_strlit(".");
    reveal_strlit("..");
    assert("."@ =~= seq!['.']);
    assert(".."@ =~= seq!['.', '.']);
    assert forall|i: int| 0 <= i < parts.len() implies (valid_component(#[trigger] parts[i]) <==> {
        &&& parts[i] != seq!['.']
        &&& parts[i] != seq!['.', '.']
        &&& encode_utf8(parts[i]).len() <= 255
    }) by {}
}

/// Slashes alone are the root. A path that does not start with a slash is
/// refused, and so is an empty one.
pub proof fn law_split_edges(path: Seq<char>)
    ensures
        path.len() > 0 && (forall|i: int| 0 <= i < path.len() ==> #[trigger] path[i] == '/')
            ==> split(path) == Ok::<Seq<Seq<char>>, ErrorView>(Seq::empty()),
        path.len() == 0 || path[0] != '/' ==> split(path) == Err::<Seq<Seq<char>>, ErrorView>(
            ErrorView::InvalidPath(path),
        ),
        split(path) matches Err(e) ==> e == ErrorView::InvalidPath(path),
{
    if path.len() > 0 && (forall|i: int| 0 <= i < path.len() ==> #[trigger] path[i] == '/') {
        lemma_components_slashes(path);
    }
}

proof fn lemma_components_slashes(s: Seq<char>)
    requires
        forall|i: int| 0 <= i < s.len() ==> #[trigger] s[i] == '/',
    ensures
        components(s) == Seq::<Seq<char>>::empty(),
    decreases s.len(),
{
    if s.len() > 0 {
        assert forall|i: int| 0 <= i < s.drop_last().len() implies #[trigger] s.drop_last()[i]
            == '/' by {
            assert(s.drop_last()[i] == s[i]);
        }
        assert(s[s.len() - 1] == '/');
        lemma_components_slashes(s.drop_last());
    }
}

/// Splitting off the last component: the root has none, and put behind the
/// others it gives the components again.
pub proof fn law_split_last(path: Seq<char>)
    ensures
        match split_last(path) {
            Ok(None) => split(path) == Ok::<Seq<Seq<char>>, ErrorView>(Seq::empty()),
            Ok(Some((parts, name))) => split(path) == Ok::<Seq<Seq<char>>, ErrorView>(
                parts.push(name),
            ),
            Err(e) => split(path) == Err::<Seq<Seq<char>>, ErrorView>(e),
        },
{
    if let Ok(parts) = split(path) {
        if parts.len() > 0 {
            assert(parts.drop_last().push(parts.last()) =~= parts);
        } else {
            assert(parts =~= Seq::empty());
        }
    }
}

/// Checks one component, given as the characters of `path` from `start` up to
/// `end`, and appends it to `out`.
fn push_component(path: &str, start: usize, end: usize, out: &mut Vec<String>) -> (ok: bool)
    requires
        start < end <= path@.len(),
    ensures
        ok == valid_component(path@.subrange(start as int, end as int)),
        ok ==> texts(final(out)@) == texts(old(out)@).push(
            path@.subrange(start as int, end as int),
        ),
{
    let part: &str = path.substring_char(start, end);
    if same_text(part, ".") || same_text(part, "..") || part.as_bytes().len() > MAX_COMPONENT_LEN {
        return false;
    }
    out.push(part.to_string());
    assert(texts(out@) =~= texts(old(out)@).push(part@));
    true
}

/// Splits an absolute path into its non-empty components.
pub fn split_path(path: &str) -> (r: Result<Vec<String>>)
    ensures
        match (r, split(path@)) {
            (Ok(parts), Ok(s)) => texts(parts@) == s,
            (Err(e), Err(s)) => e@ == s,
            _ => false,
        },
{
    let mut out: Vec<String> = Vec::new();
    let mut start: usize = 0;
    let mut i: usize = 0;
    let ghost whole = components(path@);
    let n: usize = path.unicode_len();
    if n == 0 || path.get_char(0) != '/' {
        return Err(FsError::InvalidPath(path.to_string()));
    }
    assert(texts(out@) =~= components(path@.take(0)));
    for c in it: path.chars()
        invariant
            n == path@.len(),
            n > 0,
            path@[0] == '/',
            whole == components(path@),
            it.seq() == path@,
            i == it.index(),
            start <= i <= n,
            forall|j: int|
                0 <= j < texts(out@).len() ==> valid_component(#[trigger] texts(out@)[j]),
            forall|j: int| start <= j < i ==> path@[j] != '/',
            start > 0 ==> path@[start - 1] == '/',
            start == i ==> components(path@.take(i as int)) == texts(out@),
            start < i ==> components(path@.take(i as int)) == texts(out@).push(
                path@.subrange(start as int, i as int),
            ),
    {
        let ghost before = path@.take(i as int);
        let ghost after = path@.take(i + 1);
        assert(after.drop_last() =~= before);
        assert(after.last() == c);
        if c == '/' {
            if start < i {
                if !push_component(path, start, i, &mut out) {
                    proof {
                        let rest = path@.skip(i + 1);
                        law_slash_separates(before, rest);
                        assert(before + seq!['/'] + rest =~= path@);
                        let k: int = components(before).len() - 1;
                        assert(whole[k] == path@.subrange(start as int, i as int));
                    }
                    return Err(FsError::InvalidPath(path.to_string()));
                }
            }
            start = i + 1;
        } else {
            if start < i {
                assert(after[after.len() - 2] == path@[i - 1]);
                assert(path@.subrange(start as int, i + 1) =~= path@.subrange(
                    start as int,
                    i as int,
                ).push(c));
                assert(components(after) =~= texts(out@).push(
                    path@.subrange(start as int, i + 1),
                ));
            } else {
                if i > 0 {
                    assert(after[after.len() - 2] == path@[i - 1]);
                }
                assert(path@.subrange(start as int, i + 1) =~= seq![c]);
            }
        }
        i = i + 1;
    }
    assert(path@.take(n as int) =~= path@);
    if start < n {
        if !push_component(path, start, n, &mut out) {
            proof {
                assert(whole[whole.len() - 1] == path@.subrange(start as int, n as int));
            }
            return Err(FsError::InvalidPath(path.to_string()));
        }
    }
    assert(whole == texts(out@));
    Ok(out)
}

/// Splits a path into its parent path and final component (the basename).
///
/// Returns `None` for the root path.
pub fn split_parent(path: &str) -> (r: Result<Option<(Vec<String>, String)>>)
    ensures
        match (r, split_last(path@)) {
            (Ok(None), Ok(None)) => true,
            (Ok(Some(t)), Ok(Some(s))) => texts(t.0@) == s.0 && t.1@ == s.1,
            (Err(e), Err(s)) => e@ == s,
            _ => false,
        },
{
    let mut parts: Vec<String> = match split_path(path) {
        Ok(parts) => parts,
        Err(e) => {
            return Err(e);
        },
    };
    let ghost all = texts(parts@);
    match parts.pop() {
        Some(name) => {
            assert(texts(parts@) =~= all.drop_last());
            Ok(Some((parts, name)))
        },
        None => Ok(None),
    }
}

} // verus!
