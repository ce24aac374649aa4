//! The public operations on paths.

use vstd::prelude::*;
use crate::block::{Image, Superblock, DIR_ENTRY_SIZE, MAX_NAME_LEN, MIN_BLOCK_SIZE};
use crate::error::{ErrorView, FsError, Result};
use crate::fs::{item_views, Entry, Fs, Stat};
use crate::inode::{FileKind, Inode, InodeId, DIRECT_POINTERS};
use crate::laws::geometry::law_new_image;
use crate::laws::meta::law_fresh_regular;
use crate::model::image::{div_ceil, lemma_ceil_div, lemma_live_len, new_image};
use crate::model::sound::law_fresh_healthy;
use crate::model::tree::ItemView;
use crate::path::{split_parent, split_path, texts};
use crate::text::{decimal_text, joined};

verus! {

impl Fs {
    /// Creates a fresh, empty filesystem with the given geometry.
    ///
    /// `block_size` must be at least [`MIN_BLOCK_SIZE`] bytes; `num_blocks`
    /// must be > 0.
    pub fn new(block_size: usize, num_blocks: usize) -> (r: Result<Self>)
        ensures
            match (r, new_image(block_size as nat, num_blocks as nat)) {
                (Ok(fs), Ok(s)) => fs@ == s,
                (Err(e), Err(s)) => e@ == s,
                _ => false,
            },
            r matches Ok(fs) ==> block_size <= u32::MAX && num_blocks <= u32::MAX ==> fs@.healthy()
                && fs@.in_range(),
            r is Ok <==> block_size >= 64 && num_blocks > 0,
            r matches Ok(fs) ==> block_size <= u32::MAX && num_blocks <= u32::MAX ==> {
                &&& fs@.sb.block_size == block_size
                &&& fs@.sb.num_blocks == num_blocks
                &&& fs@.free_blocks() == num_blocks
                &&& fs@.regular()
                &&& fs@.readdir("/"@) == Ok::<Seq<ItemView>, ErrorView>(Seq::empty())
            },
    {
        proof {
            if MIN_BLOCK_SIZE <= block_size <= u32::MAX && num_blocks <= u32::MAX {
                law_fresh_healthy(block_size as nat, num_blocks as nat);
                law_new_image(block_size as nat, num_blocks as nat);
                law_fresh_regular(block_size as nat, num_blocks as nat);
            }
        }
        match Image::new(block_size, num_blocks) {
            Ok(image) => Ok(Self { image }),
            Err(e) => Err(e),
        }
    }

    /// Returns the geometry of the underlying image.
    pub fn superblock(&self) -> (sb: &Superblock)
        ensures
            *sb == self@.sb,
    {
        &self.image.sb
    }

    /// Re-initialises the image, discarding all data.
    pub fn format(&mut self) -> (r: Result<()>)
        ensures
            match (
                r,
                new_image(old(self)@.sb.block_size as nat, old(self)@.sb.num_blocks as nat),
            ) {
                (Ok(()), Ok(s)) => final(self)@ == s,
                (Err(e), Err(s)) => e@ == s && final(self)@ == old(self)@,
                _ => false,
            },
            r is Ok ==> final(self)@.healthy() && final(self)@.in_range(),
            r is Ok <==> old(self)@.sb.block_size >= 64 && old(self)@.sb.num_blocks > 0,
            final(self)@.sb.block_size == old(self)@.sb.block_size,
            final(self)@.sb.num_blocks == old(self)@.sb.num_blocks,
            r is Ok ==> {
                &&& final(self)@.free_blocks() == old(self)@.sb.num_blocks
                &&& final(self)@.regular()
                &&& final(self)@.readdir("/"@) == Ok::<Seq<ItemView>, ErrorView>(Seq::empty())
            },
    {
        proof {
            law_new_image(self@.sb.block_size as nat, self@.sb.num_blocks as nat);
            if MIN_BLOCK_SIZE <= self@.sb.block_size {
                law_fresh_healthy(self@.sb.block_size as nat, self@.sb.num_blocks as nat);
                law_fresh_regular(self@.sb.block_size as nat, self@.sb.num_blocks as nat);
            }
        }
        match Image::new(self.image.sb.block_size as usize, self.image.sb.num_blocks as usize) {
            Ok(image) => {
                self.image = image;
                Ok(())
            },
            Err(e) => Err(e),
        }
    }

    /// Checks that inode `id` is of the wanted kind.
    pub(crate) fn assert_kind(&self, id: InodeId, want: FileKind, path: &str) -> (r: Result<()>)
        requires
            id < self@.inodes.len(),
        ensures
            match (r, self@.check_kind(id, want, path@)) {
                (Ok(()), Ok(())) => true,
                (Err(e), Err(s)) => e@ == s,
                _ => false,
            },
    {
        let kind: FileKind = self.image.inodes[id as usize].kind;
        assert(kind == self@.kind(id));
        if kind == want {
            Ok(())
        } else if want == FileKind::Directory {
            Err(FsError::NotADirectory(path.to_string()))
        } else {
            Err(FsError::IsADirectory(path.to_string()))
        }
    }

    /// Returns the inode that `path` names.
    pub(crate) fn resolve_path(&self, path: &str) -> (r: Result<InodeId>)
        requires
            self@.lookup_readable(path@),
        ensures
            match (r, self@.lookup(path@)) {
                (Ok(id), Ok(s)) => id == s && id < self@.inodes.len(),
                (Err(e), Err(s)) => e@ == s,
                _ => false,
            },
    {
        match split_path(path) {
            Ok(parts) => self.resolve_components(&parts),
            Err(e) => Err(e),
        }
    }

    /// Returns the inode that `parts` lead to from the root.
    pub(crate) fn resolve_components(&self, parts: &Vec<String>) -> (r: Result<InodeId>)
        requires
            self@.shaped(),
            self@.resolve_readable(texts(parts@)),
        ensures
            match (r, self@.resolve(texts(parts@))) {
                (Ok(id), Ok(s)) => id == s && id < self@.inodes.len(),
                (Err(e), Err(s)) => e@ == s,
                _ => false,
            },
    {
        let ghost all = texts(parts@);
        let mut current: InodeId = 0;
        let mut i: usize = 0;
        while i < parts.len()
            invariant
                self@.shaped(),
                i <= parts@.len(),
                all == texts(parts@),
                self@.resolve_readable(all),
                self@.resolve(all.take(i as int)) == Ok::<u32, ErrorView>(current),
                current < self@.inodes.len(),
            decreases parts.len() - i,
        {
            let ghost more = all.take(i + 1);
            proof {
                assert(more.drop_last() =~= all.take(i as int));
                assert(more.last() == parts@[i as int]@);
                self@.lemma_resolve_prefix(all, i + 1);
            }
            let part: &String = &parts[i];
            match self.assert_kind(current, FileKind::Directory, part.as_str()) {
                Ok(()) => {},
                Err(e) => {
                    return Err(e);
                },
            }
            match self.find_entry(current, part.as_str()) {
                Ok(Some(e)) => {
                    current = e.inode;
                },
                Ok(None) => {
                    return Err(FsError::NotFound(part.clone()));
                },
                Err(e) => {
                    return Err(e);
                },
            }
            i = i + 1;
        }
        assert(all.take(i as int) =~= all);
        Ok(current)
    }

    /// Returns the reason why nothing can be made in the directory `dir` where
    /// no entry fits a block.
    fn refusal(&self, dir: InodeId, kind: FileKind) -> (e: FsError)
        requires
            self@.shaped(),
            self@.bs() > 0,
            self@.slots() == 0,
            dir < self@.inodes.len(),
        ensures
            forall|name: Seq<char>| #[trigger]
                self@.make_in(dir, name, kind) == (self@, Err::<u32, ErrorView>(e@)),
    {
        proof {
            self@.lemma_vacant(kind);
            assert(self@.inodes[dir as int] == self.image.inodes@[dir as int]@);
        }
        let bs: u64 = self.image.sb.block_size as u64;
        if self.image.vacant_inode(kind) == self.image.inodes.len() {
            return FsError::OutOfInodes;
        }
        let total_blocks: u64 = div_ceil(self.image.inodes[dir as usize].size, bs);
        if total_blocks >= DIRECT_POINTERS as u64 + bs / 4 {
            FsError::FileTooLarge
        } else {
            FsError::OutOfSpace
        }
    }

    /// Claims an inode of the given kind and enters it under the last name of
    /// `path`; `at_root` is the error for the root path.
    fn make(&mut self, path: &str, kind: FileKind, at_root: FsError) -> (r: Result<InodeId>)
        requires
            old(self)@.can_make(path@, kind),
        ensures
            final(self)@ == old(self)@.make(path@, kind, at_root@).0,
            match (r, old(self)@.make(path@, kind, at_root@).1) {
                (Ok(id), Ok(s)) => id == s && id < final(self)@.inodes.len(),
                (Err(e), Err(s)) => e@ == s,
                _ => false,
            },
    {
        proof {
            if self@.in_range() {
                self@.lemma_make_readable(path@, kind);
            }
        }
        let (parent_parts, name) = match split_parent(path) {
            Ok(Some(t)) => t,
            Ok(None) => {
                return Err(at_root);
            },
            Err(e) => {
                return Err(e);
            },
        };
        let parent: InodeId = match self.resolve_components(&parent_parts) {
            Ok(id) => id,
            Err(e) => {
                return Err(e);
            },
        };
        match self.assert_kind(parent, FileKind::Directory, path) {
            Ok(()) => {},
            Err(e) => {
                return Err(e);
            },
        }
        match self.find_entry(parent, name.as_str()) {
            Ok(None) => {},
            Ok(Some(_)) => {
                return Err(FsError::AlreadyExists(path.to_string()));
            },
            Err(e) => {
                return Err(e);
            },
        }
        if name.as_str().as_bytes().len() > MAX_NAME_LEN {
            return Err(FsError::InvalidPath(path.to_string()));
        }
        proof {
            self@.lemma_vacant(kind);
        }
        if (self.image.sb.block_size as usize) < DIR_ENTRY_SIZE {
            return Err(self.refusal(parent, kind));
        }
        let new_id: InodeId = match self.image.claim_inode(kind) {
            Ok(id) => id,
            Err(e) => {
                return Err(e);
            },
        };
        match self.add_dir_entry(parent, name.as_str(), new_id) {
            Ok(()) => Ok(new_id),
            Err(e) => Err(e),
        }
    }

    /// Creates an empty regular file at `path`, whose last component may have
    /// at most [`MAX_NAME_LEN`] bytes.
    pub fn create(&mut self, path: &str) -> (r: Result<Inode>)
        requires
            old(self)@.can_make(path@, FileKind::File),
        ensures
            final(self)@ == old(self)@.create(path@).0,
            match (r, old(self)@.create(path@).1) {
                (Ok(node), Ok(s)) => node@ == s,
                (Err(e), Err(s)) => e@ == s,
                _ => false,
            },
            old(self)@.sound() ==> final(self)@.sound() && final(self)@.in_range(),
            old(self)@.regular() ==> final(self)@.regular(),
            old(self)@.healthy() && r is Ok ==> final(self)@.healthy(),
    {
        proof {
            self@.lemma_create_upkeep(path@);
        }
        match self.make(path, FileKind::File, FsError::InvalidPath(path.to_string())) {
            Ok(id) => {
                assert(self@.inodes[id as int] == self.image.inodes@[id as int]@);
                Ok(self.image.inodes[id as usize])
            },
            Err(e) => Err(e),
        }
    }

    /// Creates a directory at `path`, whose last component may have at most
    /// [`MAX_NAME_LEN`] bytes. The parent directory must already exist.
    pub fn mkdir(&mut self, path: &str) -> (r: Result<()>)
        requires
            old(self)@.can_make(path@, FileKind::Directory),
        ensures
            final(self)@ == old(self)@.mkdir(path@).0,
            match (r, old(self)@.mkdir(path@).1) {
                (Ok(()), Ok(())) => true,
                (Err(e), Err(s)) => e@ == s,
                _ => false,
            },
            old(self)@.sound() ==> final(self)@.sound() && final(self)@.in_range(),
            old(self)@.regular() ==> final(self)@.regular(),
            old(self)@.healthy() && r is Ok ==> final(self)@.healthy(),
    {
        proof {
            self@.lemma_mkdir_upkeep(path@);
        }
        match self.make(path, FileKind::Directory, FsError::AlreadyExists("/".to_string())) {
            Ok(_) => Ok(()),
            Err(e) => Err(e),
        }
    }

    /// Returns the full contents of `path`.
    pub fn read(&self, path: &str) -> (r: Result<Vec<u8>>)
        requires
            self@.can_read(path@),
        ensures
            match (r, self@.read(path@)) {
                (Ok(data), Ok(s)) => data@ == s,
                (Err(e), Err(s)) => e@ == s,
                _ => false,
            },
    {
        proof {
            if self@.in_range() {
                self@.lemma_lookup_readable(path@);
            }
        }
        let id: InodeId = match self.resolve_path(path) {
            Ok(id) => id,
            Err(e) => {
                return Err(e);
            },
        };
        match self.assert_kind(id, FileKind::File, path) {
            Ok(()) => {},
            Err(e) => {
                return Err(e);
            },
        }
        self.read_inode(id)
    }

    /// Returns the contents of the file inode `id`.
    fn read_inode(&self, id: InodeId) -> (r: Result<Vec<u8>>)
        requires
            self@.shaped(),
            id < self@.inodes.len(),
            self@.file_readable(self@.inodes[id as int]),
        ensures
            match (r, self@.file_bytes(id)) {
                (Ok(data), Ok(s)) => data@ == s,
                (Err(e), Err(s)) => e@ == s,
                _ => false,
            },
    {
        let inode: &Inode = &self.image.inodes[id as usize];
        let ghost node = self@.inodes[id as int];
        assert(node == inode@);
        let bs: u64 = self.image.sb.block_size as u64;
        let mut out: Vec<u8> = Vec::new();
        let mut remaining: u64 = inode.size;
        let mut k: u64 = 0;
        proof {
            if bs > 0 {
                lemma_ceil_div(node.size as int, bs as int, 0);
            }
        }
        while remaining > 0
            invariant
                self@.shaped(),
                node == inode@,
                node == self@.inodes[id as int],
                node.direct.len() == DIRECT_POINTERS,
                self@.file_readable(node),
                bs == self@.bs(),
                remaining <= node.size,
                remaining > 0 ==> node.size - remaining == k * bs,
                self@.first_missing(node) == self@.first_missing_from(node, k as int),
                out@ == self@.contents(node).take(node.size - remaining),
                remaining > 0 ==> k < self@.covered(node),
                remaining == 0 ==> k >= self@.covered(node),
            decreases self@.covered(node) - k,
        {
            proof {
                self@.lemma_first_missing(node, k as int);
                assert(self@.block_readable(node, k as int));
            }
            let blk: u32 = match self.logical_block(inode, k) {
                Some(b) => b,
                None => {
                    let text: String = joined(
                        joined(
                            joined("missing block ", decimal_text(k).as_str()).as_str(),
                            " for inode ",
                        ).as_str(),
                        decimal_text(id as u64).as_str(),
                    );
                    return Err(FsError::Corrupt(text));
                },
            };
            let chunk: u64 = if remaining < bs {
                remaining
            } else {
                bs
            };
            proof {
                assert(self.image.blocks@.len() == self@.blocks.len());
                assert(self.image.blocks@[blk as int]@ == self@.blocks[blk as int]);
            }
            let data: &Vec<u8> = &self.image.blocks[blk as usize];
            let ghost before = out@;
            out.extend_from_slice(&data.as_slice()[0..chunk as usize]);
            proof {
                assert(out@ =~= before + data@.take(chunk as int));
                assert((k + 1) * bs == k * bs + bs) by (nonlinear_arith);
                if bs > 0 {
                    self@.lemma_contents_chunk(node, k as int, chunk as int);
                    assert(self@.contents(node).take(k * bs + chunk) =~= before + data@.take(
                        chunk as int,
                    ));
                    lemma_ceil_div(node.size as int, bs as int, k + 1);
                } else {
                    assert(out@ =~= before);
                }
            }
            remaining = remaining - chunk;
            k = k + 1;
        }
        assert(self@.contents(node).take(node.size as int) =~= self@.contents(node));
        Ok(out)
    }

    /// Lists entries in the directory at `path`.
    pub fn readdir(&self, path: &str) -> (r: Result<Vec<Entry>>)
        requires
            self@.can_readdir(path@),
        ensures
            match (r, self@.readdir(path@)) {
                (Ok(items), Ok(s)) => item_views(items@) == s,
                (Err(e), Err(s)) => e@ == s,
                _ => false,
            },
    {
        proof {
            if self@.in_range() {
                self@.lemma_lookup_readable(path@);
            }
        }
        let id: InodeId = match self.resolve_path(path) {
            Ok(id) => id,
            Err(e) => {
                return Err(e);
            },
        };
        match self.assert_kind(id, FileKind::Directory, path) {
            Ok(()) => {},
            Err(e) => {
                return Err(e);
            },
        }
        self.readdir_id(id)
    }

    /// Returns metadata for the entry at `path`.
    pub fn stat(&self, path: &str) -> (r: Result<Stat>)
        requires
            self@.can_stat(path@),
        ensures
            match (r, self@.stat(path@)) {
                (Ok(st), Ok(s)) => st@ == s,
                (Err(e), Err(s)) => e@ == s,
                _ => false,
            },
    {
        proof {
            if self@.in_range() {
                self@.lemma_lookup_readable(path@);
            }
        }
        let id: InodeId = match self.resolve_path(path) {
            Ok(id) => id,
            Err(e) => {
                return Err(e);
            },
        };
        let inode: &Inode = &self.image.inodes[id as usize];
        assert(inode@ == self@.inodes[id as int]);
        let pointers: Vec<u32> = self.image.gather_pointers(id);
        proof {
            lemma_live_len(self@.pointer_fields(inode@));
        }
        let blocks: u32 = pointers.len() as u32;
        Ok(
            Stat {
                inode: inode.id,
                kind: inode.kind,
                size: inode.size,
                link_count: inode.link_count,
                blocks,
            },
        )
    }
}

} // verus!
