//! The filesystem's operations on the image as a value.

use vstd::prelude::*;
use vstd::utf8::encode_utf8;
use crate::block::{largest_file, MAX_NAME_LEN};
use crate::error::{ErrorView, Outcome};
use crate::inode::{FileKind, InodeView, DIRECT_POINTERS, NULL_BLOCK};
use crate::model::entry::EntryView;
use crate::model::image::{ceil_div, lemma_block_offset, ImageView};
use crate::path::{split, split_last};
use crate::text::decimal;

verus! {

/// One directory listing item.
#[verifier::ext_equal]
pub struct ItemView {
    pub name: Seq<char>,
    pub inode: u32,
    pub kind: FileKind,
}

/// A snapshot of an inode's metadata.
pub struct StatView {
    pub inode: u32,
    pub kind: FileKind,
    pub size: u64,
    pub link_count: u16,
    pub blocks: int,
}

/// The `k`-th block of a file with the contents `data`, padded with zeros.
pub open spec fn data_block(data: Seq<u8>, k: int, bs: int) -> Seq<u8> {
    Seq::new(
        bs as nat,
        |p: int|
            if k * bs + p < data.len() {
                data[k * bs + p]
            } else {
                0u8
            },
    )
}

impl ImageView {
    /// The kind of inode `id`.
    pub open spec fn kind(self, id: u32) -> FileKind {
        self.inodes[id as int].kind
    }

    /// Whether inode `id` is of the wanted kind; if not, the error names `path`.
    pub open spec fn check_kind(self, id: u32, want: FileKind, path: Seq<char>) -> Outcome<()> {
        if self.kind(id) == want {
            Ok(())
        } else if want == FileKind::Directory {
            Err(ErrorView::NotADirectory(path))
        } else {
            Err(ErrorView::IsADirectory(path))
        }
    }

    /// The inode that the directory `dir` holds under `part`.
    pub open spec fn step(self, dir: u32, part: Seq<char>) -> Outcome<u32> {
        match self.check_kind(dir, FileKind::Directory, part) {
            Ok(()) => match self.find_entry(self.inodes[dir as int], part) {
                Ok(Some(e)) => Ok(e.inode),
                Ok(None) => Err(ErrorView::NotFound(part)),
                Err(e) => Err(e),
            },
            Err(e) => Err(e),
        }
    }

    /// The inode that `parts` lead to from the root.
    pub open spec fn resolve(self, parts: Seq<Seq<char>>) -> Outcome<u32>
        decreases parts.len(),
    {
        if parts.len() == 0 {
            Ok(0)
        } else {
            match self.resolve(parts.drop_last()) {
                Ok(dir) => self.step(dir, parts.last()),
                Err(e) => Err(e),
            }
        }
    }

    /// Every inode and block that following `parts` comes to lies inside the
    /// image.
    pub open spec fn resolve_readable(self, parts: Seq<Seq<char>>) -> bool
        decreases parts.len(),
    {
        &&& parts.len() > 0 ==> {
            &&& self.resolve_readable(parts.drop_last())
            &&& self.resolve(parts.drop_last()) matches Ok(dir) ==> self.kind(dir)
                == FileKind::Directory ==> self.scan_readable(self.inodes[dir as int])
        }
        &&& self.resolve(parts) matches Ok(id) ==> id < self.inodes.len()
    }

    /// The inode that `path` names.
    pub open spec fn lookup(self, path: Seq<char>) -> Outcome<u32> {
        match split(path) {
            Ok(parts) => self.resolve(parts),
            Err(e) => Err(e),
        }
    }

    /// Every inode and block that looking up `path` comes to lies inside the
    /// image.
    pub open spec fn lookup_readable(self, path: Seq<char>) -> bool {
        split(path) matches Ok(parts) ==> self.shaped() && self.resolve_readable(parts)
    }

    /// The first data block of `node`, from the `k`-th on, that is missing; the
    /// number of blocks that the size covers if none is.
    pub open spec fn first_missing_from(self, node: InodeView, k: int) -> int
        decreases self.covered(node) - k,
    {
        if k >= self.covered(node) || self.pointer(node, k) == NULL_BLOCK {
            k
        } else {
            self.first_missing_from(node, k + 1)
        }
    }

    /// The first data block of `node` that is missing; the number of blocks
    /// that the size covers if none is.
    pub open spec fn first_missing(self, node: InodeView) -> int {
        self.first_missing_from(node, 0)
    }

    /// The bytes of the file `node`.
    pub open spec fn contents(self, node: InodeView) -> Seq<u8> {
        Seq::new(
            node.size as nat,
            |p: int| self.blocks[self.pointer(node, p / self.bs()) as int][p % self.bs()],
        )
    }

    /// Every block that reading the file `node` comes to lies inside the image.
    pub open spec fn file_readable(self, node: InodeView) -> bool {
        forall|k: int|
            0 <= k < self.covered(node) && k <= self.first_missing(node) ==> #[trigger]
            self.block_readable(node, k)
    }

    /// The bytes of the file inode `id`, if no data block is missing.
    pub open spec fn file_bytes(self, id: u32) -> Outcome<Seq<u8>> {
        let node = self.inodes[id as int];
        let k = self.first_missing(node);
        if k < self.covered(node) {
            Err(
                ErrorView::Corrupt(
                    "missing block "@ + decimal(k as nat) + " for inode "@ + decimal(id as nat),
                ),
            )
        } else {
            Ok(self.contents(node))
        }
    }

    /// The full contents of the file at `path`.
    pub open spec fn read(self, path: Seq<char>) -> Outcome<Seq<u8>> {
        match self.lookup(path) {
            Ok(id) => match self.check_kind(id, FileKind::File, path) {
                Ok(()) => self.file_bytes(id),
                Err(e) => Err(e),
            },
            Err(e) => Err(e),
        }
    }

    /// Every inode and block that reading `path` comes to lies inside the image.
    pub open spec fn read_readable(self, path: Seq<char>) -> bool {
        &&& self.lookup_readable(path)
        &&& self.lookup(path) matches Ok(id) ==> self.kind(id) == FileKind::File
            ==> self.file_readable(self.inodes[id as int])
    }

    /// The metadata of the entry at `path`.
    pub open spec fn stat(self, path: Seq<char>) -> Outcome<StatView> {
        match self.lookup(path) {
            Ok(id) => {
                let node = self.inodes[id as int];
                Ok(
                    StatView {
                        inode: node.id,
                        kind: node.kind,
                        size: node.size,
                        link_count: node.link_count,
                        blocks: self.gather(id as int).len() as int,
                    },
                )
            },
            Err(e) => Err(e),
        }
    }

    /// Every inode and block that `stat` of `path` comes to lies inside the image.
    pub open spec fn stat_readable(self, path: Seq<char>) -> bool {
        &&& self.lookup_readable(path)
        &&& self.lookup(path) matches Ok(id) ==> self.inodes[id as int].allocated
            ==> self.pointers_readable(self.inodes[id as int])
    }

    /// The listing items of the entries in use.
    pub open spec fn listing(self, es: Seq<EntryView>) -> Seq<ItemView>
        decreases es.len(),
    {
        if es.len() == 0 {
            Seq::empty()
        } else if es.last().used {
            let e = es.last();
            self.listing(es.drop_last()).push(
                ItemView { name: e.name, inode: e.inode, kind: self.kind(e.inode) },
            )
        } else {
            self.listing(es.drop_last())
        }
    }

    /// The listing of the directory inode `id`.
    pub open spec fn list(self, id: u32) -> Outcome<Seq<ItemView>> {
        match self.entries(self.inodes[id as int]) {
            Ok(es) => Ok(self.listing(es)),
            Err(e) => Err(e),
        }
    }

    /// Every inode and block that listing inode `id` comes to lies inside the image.
    pub open spec fn list_readable(self, id: u32) -> bool {
        let node = self.inodes[id as int];
        &&& self.scan_readable(node)
        &&& self.entries(node) matches Ok(es) ==> forall|i: int|
            0 <= i < es.len() && (#[trigger] es[i]).used ==> es[i].inode < self.inodes.len()
    }

    /// The entries of the directory at `path`.
    pub open spec fn readdir(self, path: Seq<char>) -> Outcome<Seq<ItemView>> {
        match self.lookup(path) {
            Ok(id) => match self.check_kind(id, FileKind::Directory, path) {
                Ok(()) => self.list(id),
                Err(e) => Err(e),
            },
            Err(e) => Err(e),
        }
    }

    /// Every inode and block that listing `path` comes to lies inside the image.
    pub open spec fn readdir_readable(self, path: Seq<char>) -> bool {
        &&& self.lookup_readable(path)
        &&& self.lookup(path) matches Ok(id) ==> self.kind(id) == FileKind::Directory
            ==> self.list_readable(id)
    }

    /// Why the directory `dir` takes no entry where none fits a block.
    pub open spec fn no_fit(self, dir: int) -> ErrorView {
        if self.covered(self.inodes[dir]) >= DIRECT_POINTERS + self.words() {
            ErrorView::FileTooLarge
        } else {
            ErrorView::OutOfSpace
        }
    }

    /// Claims an inode and enters it under `name` into the directory `dir`.
    /// Where no entry fits a block, nothing is claimed.
    pub open spec fn make_in(self, dir: u32, name: Seq<char>, kind: FileKind) -> (
        ImageView,
        Outcome<u32>,
    ) {
        match self.claim_inode(kind) {
            (img, Ok(id)) => if self.slots() == 0 {
                (self, Err(self.no_fit(dir as int)))
            } else {
                match img.add_entry(dir as int, name, id) {
                    (img2, Ok(())) => (img2, Ok(id)),
                    (img2, Err(e)) => (img2, Err(e)),
                }
            },
            (img, Err(e)) => (img, Err(e)),
        }
    }

    /// The directory that `parts` lead to, if it holds nothing under `name`.
    pub open spec fn vacancy(
        self,
        parts: Seq<Seq<char>>,
        name: Seq<char>,
        path: Seq<char>,
    ) -> Outcome<u32> {
        match self.resolve(parts) {
            Ok(dir) => match self.check_kind(dir, FileKind::Directory, path) {
                Ok(()) => match self.find_entry(self.inodes[dir as int], name) {
                    Ok(None) => Ok(dir),
                    Ok(Some(_)) => Err(ErrorView::AlreadyExists(path)),
                    Err(e) => Err(e),
                },
                Err(e) => Err(e),
            },
            Err(e) => Err(e),
        }
    }

    /// Makes an entry of the given kind at `path`; `at_root` is the error for
    /// the root path. A name that does not fit a directory entry is refused.
    pub open spec fn make(self, path: Seq<char>, kind: FileKind, at_root: ErrorView) -> (
        ImageView,
        Outcome<u32>,
    ) {
        match split_last(path) {
            Ok(Some((parts, name))) => match self.vacancy(parts, name, path) {
                Ok(dir) => if encode_utf8(name).len() > MAX_NAME_LEN {
                    (self, Err(ErrorView::InvalidPath(path)))
                } else {
                    self.make_in(dir, name, kind)
                },
                Err(e) => (self, Err(e)),
            },
            Ok(None) => (self, Err(at_root)),
            Err(e) => (self, Err(e)),
        }
    }

    /// Every inode and block that claiming an inode and entering it into the
    /// directory `dir` comes to lies inside the image.
    pub open spec fn make_in_readable(self, dir: int, kind: FileKind) -> bool {
        self.claim_inode(kind).1 matches Ok(id) ==> {
            &&& id < self.inodes.len()
            &&& self.claim_inode(kind).0.add_readable(dir)
        }
    }

    /// Every inode and block that making `path` comes to lies inside the image.
    pub open spec fn make_readable(self, path: Seq<char>, kind: FileKind) -> bool {
        split_last(path) matches Ok(Some((parts, name))) ==> {
            &&& self.shaped()
            &&& self.resolve_readable(parts)
            &&& self.resolve(parts) matches Ok(dir) ==> self.kind(dir) == FileKind::Directory ==> {
                &&& self.scan_readable(self.inodes[dir as int])
                &&& self.vacancy(parts, name, path) is Ok && encode_utf8(name).len()
                    <= MAX_NAME_LEN && self.slots() > 0 ==> self.make_in_readable(
                    dir as int,
                    kind,
                )
            }
        }
    }

    /// Creates an empty regular file at `path`; the result is its inode.
    pub open spec fn create(self, path: Seq<char>) -> (ImageView, Outcome<InodeView>) {
        match self.make(path, FileKind::File, ErrorView::InvalidPath(path)) {
            (img, Ok(id)) => (img, Ok(img.inodes[id as int])),
            (img, Err(e)) => (img, Err(e)),
        }
    }

    /// Creates a directory at `path`.
    pub open spec fn mkdir(self, path: Seq<char>) -> (ImageView, Outcome<()>) {
        match self.make(path, FileKind::Directory, ErrorView::AlreadyExists("/"@)) {
            (img, Ok(_)) => (img, Ok(())),
            (img, Err(e)) => (img, Err(e)),
        }
    }

    /// Stores the first `n` blocks of `data` in inode `id`.
    pub open spec fn write_blocks(self, id: int, data: Seq<u8>, n: int) -> (
        ImageView,
        Outcome<()>,
    )
        decreases n,
    {
        if n <= 0 {
            (self, Ok(()))
        } else {
            match self.write_blocks(id, data, n - 1) {
                (img, Ok(())) => match img.alloc_logical_block(id, n - 1) {
                    (img2, Ok(b)) => (
                        img2.with_block(b as int, data_block(data, n - 1, self.bs())),
                        Ok(()),
                    ),
                    (img2, Err(e)) => (img2, Err(e)),
                },
                (img, Err(e)) => (img, Err(e)),
            }
        }
    }

    /// Replaces the contents of the file inode `id` by `data`. Where that
    /// fails, the file is left empty.
    pub open spec fn write_file(self, id: int, data: Seq<u8>) -> (ImageView, Outcome<nat>) {
        let cleared = self.truncated(id);
        if data.len() > largest_file(self.bs()) {
            (cleared, Err(ErrorView::FileTooLarge))
        } else {
            match cleared.write_blocks(id, data, ceil_div(data.len() as int, self.bs())) {
                (img, Ok(())) => (
                    img.with_inode(id, InodeView { size: data.len() as u64, ..img.inodes[id] }),
                    Ok(data.len()),
                ),
                (img, Err(e)) => (img, Err(e)),
            }
        }
    }

    /// Writes `data` to the file at `path`; the result is the number of bytes.
    pub open spec fn write(self, path: Seq<char>, data: Seq<u8>) -> (ImageView, Outcome<nat>) {
        match self.lookup(path) {
            Ok(id) => match self.check_kind(id, FileKind::File, path) {
                Ok(()) => self.write_file(id as int, data),
                Err(e) => (self, Err(e)),
            },
            Err(e) => (self, Err(e)),
        }
    }

    /// Every inode and block that writing `path` comes to lies inside the image.
    pub open spec fn write_readable(self, path: Seq<char>) -> bool {
        &&& self.lookup_readable(path)
        &&& self.lookup(path) matches Ok(id) ==> self.kind(id) == FileKind::File ==> self.freeable(
            id,
        )
    }

    /// Writes `data` to the file at `path`, which is created first if there is
    /// nothing to be seen there.
    pub open spec fn store(self, path: Seq<char>, data: Seq<u8>) -> (ImageView, Outcome<nat>) {
        if self.stat(path) is Ok {
            self.write(path, data)
        } else {
            match self.create(path) {
                (img, Ok(_)) => img.write(path, data),
                (img, Err(e)) => (img, Err(e)),
            }
        }
    }

    /// Clears the entry under `name` in the directory `dir` and gives back
    /// inode `id`.
    pub open spec fn detach(self, dir: u32, name: Seq<char>, id: u32) -> (ImageView, Outcome<()>) {
        match self.remove_entry(dir as int, name) {
            (img, Ok(())) => (img.free_inode(id), Ok(())),
            (img, Err(e)) => (img, Err(e)),
        }
    }

    /// The parent of `path`, and the inode that it holds under the last name.
    pub open spec fn occupant(
        self,
        parts: Seq<Seq<char>>,
        name: Seq<char>,
        path: Seq<char>,
    ) -> Outcome<(u32, u32)> {
        match self.resolve(parts) {
            Ok(dir) => match self.check_kind(dir, FileKind::Directory, path) {
                Ok(()) => match self.find_entry(self.inodes[dir as int], name) {
                    Ok(Some(e)) => Ok((dir, e.inode)),
                    Ok(None) => Err(ErrorView::NotFound(path)),
                    Err(e) => Err(e),
                },
                Err(e) => Err(e),
            },
            Err(e) => Err(e),
        }
    }

    /// Removes the regular file at `path`.
    pub open spec fn unlink(self, path: Seq<char>) -> (ImageView, Outcome<()>) {
        match split_last(path) {
            Ok(Some((parts, name))) => match self.occupant(parts, name, path) {
                Ok((dir, id)) => if self.kind(id) == FileKind::Directory {
                    (self, Err(ErrorView::IsADirectory(path)))
                } else {
                    self.detach(dir, name, id)
                },
                Err(e) => (self, Err(e)),
            },
            Ok(None) => (self, Err(ErrorView::IsADirectory("/"@))),
            Err(e) => (self, Err(e)),
        }
    }

    /// Removes the empty directory at `path`.
    pub open spec fn rmdir(self, path: Seq<char>) -> (ImageView, Outcome<()>) {
        match split_last(path) {
            Ok(Some((parts, name))) => match self.occupant(parts, name, path) {
                Ok((dir, id)) => if self.kind(id) != FileKind::Directory {
                    (self, Err(ErrorView::NotADirectory(path)))
                } else {
                    match self.list(id) {
                        Ok(items) => if items.len() > 0 {
                            (self, Err(ErrorView::AlreadyExists(path + " not empty"@)))
                        } else {
                            self.detach(dir, name, id)
                        },
                        Err(e) => (self, Err(e)),
                    }
                },
                Err(e) => (self, Err(e)),
            },
            Ok(None) => (self, Err(ErrorView::IsADirectory("/"@))),
            Err(e) => (self, Err(e)),
        }
    }

    /// Every inode and block that finding the occupant of `path` comes to lies
    /// inside the image.
    pub open spec fn occupant_readable(
        self,
        parts: Seq<Seq<char>>,
        name: Seq<char>,
        path: Seq<char>,
    ) -> bool {
        &&& self.resolve_readable(parts)
        &&& self.resolve(parts) matches Ok(dir) ==> self.kind(dir) == FileKind::Directory
            ==> self.scan_readable(self.inodes[dir as int])
        &&& self.occupant(parts, name, path) matches Ok((dir, id)) ==> id < self.inodes.len()
    }

    /// Inode `id` can be given back: the pointers that it holds can be read.
    pub open spec fn freeable(self, id: u32) -> bool {
        self.inodes[id as int].allocated ==> self.pointers_readable(self.inodes[id as int])
    }

    /// Every inode and block that `unlink` of `path` comes to lies inside the
    /// image.
    pub open spec fn unlink_readable(self, path: Seq<char>) -> bool {
        split_last(path) matches Ok(Some((parts, name))) ==> {
            &&& self.shaped()
            &&& self.occupant_readable(parts, name, path)
            &&& self.occupant(parts, name, path) matches Ok((dir, id)) ==> self.kind(id)
                != FileKind::Directory ==> self.freeable(id)
        }
    }

    /// Every inode and block that `rmdir` of `path` comes to lies inside the
    /// image.
    pub open spec fn rmdir_readable(self, path: Seq<char>) -> bool {
        split_last(path) matches Ok(Some((parts, name))) ==> {
            &&& self.shaped()
            &&& self.occupant_readable(parts, name, path)
            &&& self.occupant(parts, name, path) matches Ok((dir, id)) ==> self.kind(id)
                == FileKind::Directory ==> {
                &&& self.list_readable(id)
                &&& self.list(id) == Ok::<Seq<ItemView>, ErrorView>(Seq::empty())
                    ==> self.freeable(id)
            }
        }
    }

    /// What leads along all of `all` leads along its first `n` parts too, and
    /// an error on the way is the outcome.
    pub proof fn lemma_resolve_prefix(self, all: Seq<Seq<char>>, n: int)
        requires
            0 <= n <= all.len(),
        ensures
            self.resolve_readable(all) ==> self.resolve_readable(all.take(n)),
            self.resolve(all.take(n)) is Err ==> self.resolve(all) == self.resolve(all.take(n)),
        decreases all.len() - n,
    {
        if n < all.len() {
            self.lemma_resolve_prefix(all, n + 1);
            assert(all.take(n + 1).drop_last() =~= all.take(n));
        } else {
            assert(all.take(n) =~= all);
        }
    }

    /// The first missing block is not before the block the search starts from.
    pub proof fn lemma_first_missing(self, node: InodeView, k: int)
        ensures
            k <= self.first_missing_from(node, k),
            k <= self.covered(node) ==> self.first_missing_from(node, k) <= self.covered(node),
            forall|j: int|
                k <= j < self.first_missing_from(node, k) ==> #[trigger] self.pointer(node, j)
                    != NULL_BLOCK,
            self.first_missing_from(node, k) < self.covered(node) ==> self.pointer(
                node,
                self.first_missing_from(node, k),
            ) == NULL_BLOCK,
        decreases self.covered(node) - k,
    {
        if k < self.covered(node) && self.pointer(node, k) != NULL_BLOCK {
            self.lemma_first_missing(node, k + 1);
        }
    }

    /// The first `n` bytes of the `k`-th data block are the bytes of the
    /// contents from the start of that block on.
    pub proof fn lemma_contents_chunk(self, node: InodeView, k: int, n: int)
        requires
            self.bs() > 0,
            0 <= k,
            0 <= n <= self.bs(),
            k * self.bs() + n <= node.size,
            self.blocks[self.pointer(node, k) as int].len() == self.bs(),
        ensures
            self.contents(node).subrange(k * self.bs(), k * self.bs() + n) == self.blocks[
                self.pointer(node, k) as int
            ].take(n),
    {
        let bs = self.bs();
        assert(k * bs >= 0) by (nonlinear_arith)
            requires
                k >= 0,
                bs > 0,
        ;
        let data = self.blocks[self.pointer(node, k) as int];
        let part = self.contents(node).subrange(k * bs, k * bs + n);
        assert forall|p: int| 0 <= p < n implies #[trigger] part[p] == data[p] by {
            lemma_block_offset(k, p, bs);
        }
        assert(part =~= data.take(n));
    }
}

} // verus!
