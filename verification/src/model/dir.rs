//! Directories: the entries that the data blocks of an inode hold.

use vstd::prelude::*;
use crate::block::DIR_ENTRY_SIZE;
use crate::codec::splice;
use crate::error::{ErrorView, Outcome};
use crate::inode::{InodeView, DIRECT_POINTERS, NULL_BLOCK};
use crate::model::entry::{decode_entry, empty_entry, entry_bytes, used_entry, EntryView};
use crate::model::image::{ceil_div, ImageView};

verus! {

/// The bytes of the `j`-th entry of a directory block.
pub open spec fn slot(data: Seq<u8>, j: int) -> Seq<u8> {
    data.subrange(68 * j, 68 * j + 68)
}

/// The first `n` entries of a directory block.
pub open spec fn block_entries(data: Seq<u8>, n: int) -> Outcome<Seq<EntryView>>
    decreases n,
{
    if n <= 0 {
        Ok(Seq::empty())
    } else {
        match block_entries(data, n - 1) {
            Ok(es) => match decode_entry(slot(data, n - 1)) {
                Ok(e) => Ok(es.push(e)),
                Err(e) => Err(e),
            },
            Err(e) => Err(e),
        }
    }
}

/// An entry in use under the given name.
pub open spec fn is_named(e: EntryView, name: Seq<char>) -> bool {
    e.used && e.name == name
}

/// The position, from `i` on, of the first entry in use under `name`; the
/// length if there is none.
pub open spec fn position_from(es: Seq<EntryView>, name: Seq<char>, i: int) -> int
    decreases es.len() - i,
{
    if i >= es.len() || is_named(es[i], name) {
        i
    } else {
        position_from(es, name, i + 1)
    }
}

/// The first entry in use under `name`.
pub open spec fn first_named(es: Seq<EntryView>, name: Seq<char>) -> Option<EntryView> {
    let i = position_from(es, name, 0);
    if i < es.len() {
        Some(es[i])
    } else {
        None
    }
}

/// The first of `n` entries of a block that `wanted` accepts, if all entries
/// before it can be read.
pub open spec fn search_block(
    data: Seq<u8>,
    n: int,
    wanted: spec_fn(EntryView) -> bool,
) -> Outcome<Option<int>>
    decreases n,
{
    if n <= 0 {
        Ok(None)
    } else {
        match search_block(data, n - 1, wanted) {
            Ok(None) => match decode_entry(slot(data, n - 1)) {
                Ok(e) => if wanted(e) {
                    Ok(Some(n - 1))
                } else {
                    Ok(None)
                },
                Err(e) => Err(e),
            },
            found => found,
        }
    }
}

/// The entries that can take a new name.
pub open spec fn unused() -> spec_fn(EntryView) -> bool {
    |e: EntryView| !e.used
}

/// The entries in use under `name`.
pub open spec fn named(name: Seq<char>) -> spec_fn(EntryView) -> bool {
    |e: EntryView| is_named(e, name)
}

/// The contents of a directory block that was `data` and now holds `e` alone.
pub open spec fn first_entry_block(data: Seq<u8>, e: EntryView, slots: int) -> Seq<u8> {
    Seq::new(
        data.len(),
        |p: int|
            if p < DIR_ENTRY_SIZE {
                entry_bytes(e)[p]
            } else if p < 68 * slots {
                0u8
            } else {
                data[p]
            },
    )
}

/// Once an entry of a block cannot be read, no longer prefix can be read.
pub proof fn lemma_block_entries_err(data: Seq<u8>, m: int, n: int)
    requires
        m <= n,
        block_entries(data, m) is Err,
    ensures
        block_entries(data, n) == block_entries(data, m),
    decreases n - m,
{
    if m < n {
        lemma_block_entries_err(data, m, n - 1);
    }
}

/// A search of a block ends where it finds an entry or one that cannot be read.
pub proof fn lemma_search_block_ends(
    data: Seq<u8>,
    m: int,
    n: int,
    wanted: spec_fn(EntryView) -> bool,
)
    requires
        m <= n,
        search_block(data, m, wanted) != Ok::<Option<int>, ErrorView>(None),
    ensures
        search_block(data, n, wanted) == search_block(data, m, wanted),
    decreases n - m,
{
    if m < n {
        lemma_search_block_ends(data, m, n - 1, wanted);
    }
}

impl ImageView {
    /// Once a directory block cannot be read, no longer prefix can be read.
    pub proof fn lemma_scan_err(self, node: InodeView, m: int, n: int)
        requires
            m <= n,
            self.scan(node, m) is Err,
        ensures
            self.scan(node, n) == self.scan(node, m),
        decreases n - m,
    {
        if m < n {
            self.lemma_scan_err(node, m, n - 1);
        }
    }

    /// A search ends where it finds an entry or a block that cannot be read.
    pub proof fn lemma_search_ends(
        self,
        node: InodeView,
        m: int,
        n: int,
        wanted: spec_fn(EntryView) -> bool,
    )
        requires
            m <= n,
            self.search(node, m, wanted) != Ok::<Option<(u32, int)>, ErrorView>(None),
        ensures
            self.search(node, n, wanted) == self.search(node, m, wanted),
        decreases n - m,
    {
        if m < n {
            self.lemma_search_ends(node, m, n - 1, wanted);
        }
    }

    /// The number of data blocks that the size of `node` covers. No number of
    /// blocks without bytes covers a size, so that there it is one more than
    /// there are pointers.
    pub open spec fn covered(self, node: InodeView) -> int {
        if self.bs() == 0 && node.size > 0 {
            DIRECT_POINTERS + 1
        } else {
            ceil_div(node.size as int, self.bs())
        }
    }

    /// The entries in the first `k` data blocks of `node`.
    pub open spec fn scan(self, node: InodeView, k: int) -> Outcome<Seq<EntryView>>
        decreases k,
    {
        if k <= 0 {
            Ok(Seq::empty())
        } else {
            match self.scan(node, k - 1) {
                Ok(es) => match self.logical_block(node, k - 1) {
                    Some(b) => match block_entries(self.blocks[b as int], self.slots()) {
                        Ok(more) => Ok(es + more),
                        Err(e) => Err(e),
                    },
                    None => Err(ErrorView::Corrupt("missing directory block"@)),
                },
                Err(e) => Err(e),
            }
        }
    }

    /// All entries of the directory `node`, used or not.
    pub open spec fn entries(self, node: InodeView) -> Outcome<Seq<EntryView>> {
        self.scan(node, self.covered(node))
    }

    /// The pointer to the `k`-th data block of `node` can be read.
    pub open spec fn pointer_readable(self, node: InodeView, k: int) -> bool {
        0 <= k - DIRECT_POINTERS < self.words() && node.indirect != NULL_BLOCK ==> node.indirect
            < self.blocks.len()
    }

    /// The pointer to the `k`-th data block of `node` can be read, and the
    /// block that it names lies inside the image.
    pub open spec fn block_readable(self, node: InodeView, k: int) -> bool {
        &&& self.pointer_readable(node, k)
        &&& self.pointer(node, k) != NULL_BLOCK ==> self.pointer(node, k) < self.blocks.len()
    }

    /// Every block that reading the entries of `node` comes to can be read, and
    /// blocks are not empty.
    pub open spec fn scan_readable(self, node: InodeView) -> bool {
        &&& self.bs() > 0
        &&& forall|k: int|
            0 <= k < self.covered(node) && self.scan(node, k) is Ok ==> #[trigger]
            self.block_readable(node, k)
    }

    /// The entry of the directory `node` under `name`.
    pub open spec fn find_entry(self, node: InodeView, name: Seq<char>) -> Outcome<
        Option<EntryView>,
    > {
        match self.entries(node) {
            Ok(es) => Ok(first_named(es, name)),
            Err(e) => Err(e),
        }
    }

    /// The place, as block and position in it, of the first entry in the first
    /// `k` data blocks of `node` that `wanted` accepts.
    pub open spec fn search(
        self,
        node: InodeView,
        k: int,
        wanted: spec_fn(EntryView) -> bool,
    ) -> Outcome<Option<(u32, int)>>
        decreases k,
    {
        if k <= 0 {
            Ok(None)
        } else {
            match self.search(node, k - 1, wanted) {
                Ok(None) => match self.logical_block(node, k - 1) {
                    Some(b) => match search_block(self.blocks[b as int], self.slots(), wanted) {
                        Ok(Some(j)) => Ok(Some((b, j))),
                        Ok(None) => Ok(None),
                        Err(e) => Err(e),
                    },
                    None => Err(ErrorView::Corrupt("missing directory block"@)),
                },
                found => found,
            }
        }
    }

    /// Every block that the search comes to can be read, and blocks are not
    /// empty.
    pub open spec fn search_readable(
        self,
        node: InodeView,
        wanted: spec_fn(EntryView) -> bool,
    ) -> bool {
        &&& self.bs() > 0
        &&& forall|k: int|
            0 <= k < self.covered(node) && self.search(node, k, wanted) == Ok::<
                Option<(u32, int)>,
                ErrorView,
            >(None) ==> #[trigger] self.block_readable(node, k)
    }

    /// The image with `e` at position `j` of block `b`.
    pub open spec fn put_entry(self, b: int, j: int, e: EntryView) -> ImageView {
        self.with_block(b, splice(self.blocks[b], 68 * j, entry_bytes(e)))
    }

    /// Adds a block to the directory `dir`, with `e` as its first entry.
    pub open spec fn grow(self, dir: int, e: EntryView) -> (ImageView, Outcome<()>) {
        match self.alloc_logical_block(dir, self.covered(self.inodes[dir])) {
            (img, Ok(b)) => {
                let node = img.inodes[dir];
                (
                    img.with_block(
                        b as int,
                        first_entry_block(img.blocks[b as int], e, self.slots()),
                    ).with_inode(
                        dir,
                        InodeView { size: (node.size + self.bs()) as u64, ..node },
                    ),
                    Ok(()),
                )
            },
            (img, Err(e)) => (img, Err(e)),
        }
    }

    /// Enters `name` for `target` into the directory `dir`: into the first
    /// unused entry, or else into a new block.
    pub open spec fn add_entry(self, dir: int, name: Seq<char>, target: u32) -> (
        ImageView,
        Outcome<()>,
    ) {
        let node = self.inodes[dir];
        let e = used_entry(name, target);
        match self.search(node, self.covered(node), unused()) {
            Ok(Some((b, j))) => (self.put_entry(b as int, j, e), Ok(())),
            Ok(None) => self.grow(dir, e),
            Err(x) => (self, Err(x)),
        }
    }

    /// Clears the first entry of the directory `dir` in use under `name`.
    pub open spec fn remove_entry(self, dir: int, name: Seq<char>) -> (ImageView, Outcome<()>) {
        let node = self.inodes[dir];
        match self.search(node, self.covered(node), named(name)) {
            Ok(Some((b, j))) => (self.put_entry(b as int, j, empty_entry()), Ok(())),
            Ok(None) => (self, Err(ErrorView::NotFound(name))),
            Err(x) => (self, Err(x)),
        }
    }

    /// The growth of the directory `dir` stays inside the image: where a block
    /// is claimed, an entry fits it.
    pub open spec fn growable(self, dir: int) -> bool {
        let k = self.covered(self.inodes[dir]);
        &&& self.block_readable(self.inodes[dir], k)
        &&& self.alloc_logical_block(dir, k).1 is Ok ==> self.bs() >= DIR_ENTRY_SIZE
    }

    /// Adding an entry to the directory `dir` stays inside the image.
    pub open spec fn add_readable(self, dir: int) -> bool {
        let node = self.inodes[dir];
        &&& self.search_readable(node, unused())
        &&& self.search(node, self.covered(node), unused()) == Ok::<
            Option<(u32, int)>,
            ErrorView,
        >(None) ==> self.growable(dir)
    }
}

} // verus!
