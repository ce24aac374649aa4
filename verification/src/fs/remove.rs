//! Removing files and directories.

use vstd::prelude::*;
use crate::error::{ErrorView, FsError, Result};
use crate::fs::Fs;
use crate::inode::{FileKind, InodeId, InodeView};
use crate::model::dir::named;
use crate::model::entry::EntryView;
use crate::model::image::ImageView;
use crate::path::{split_parent, texts};
use crate::text::joined;

verus! {

impl ImageView {
    /// A search comes to no block that reading all entries does not come to.
    pub proof fn lemma_search_within_scan(
        self,
        node: InodeView,
        wanted: spec_fn(EntryView) -> bool,
    )
        requires
            self.entries(node) is Ok,
            self.scan_readable(node),
        ensures
            self.search_readable(node, wanted),
    {
        assert forall|k: int|
            0 <= k < self.covered(node) && self.search(node, k, wanted) == Ok::<
                Option<(u32, int)>,
                ErrorView,
            >(None) implies #[trigger] self.block_readable(node, k) by {
            if self.scan(node, k) is Err {
                self.lemma_scan_err(node, k, self.covered(node));
            }
        }
    }
}

impl Fs {
    /// Returns the parent of `path` and the inode that it holds under the last
    /// name; `name` is that name.
    fn find_occupant(&self, parent_parts: &Vec<String>, name: &str, path: &str) -> (r: Result<
        (InodeId, InodeId),
    >)
        requires
            self@.shaped(),
            self@.occupant_readable(texts(parent_parts@), name@, path@),
        ensures
            match (r, self@.occupant(texts(parent_parts@), name@, path@)) {
                (Ok(t), Ok(s)) => {
                    &&& t == s
                    &&& t.0 < self@.inodes.len()
                    &&& t.1 < self@.inodes.len()
                    &&& self@.entries(self@.inodes[t.0 as int]) is Ok
                    &&& self@.scan_readable(self@.inodes[t.0 as int])
                },
                (Err(e), Err(s)) => e@ == s,
                _ => false,
            },
    {
        let parent: InodeId = match self.resolve_components(parent_parts) {
            Ok(id) => id,
            Err(e) => {
                return Err(e);
            },
        };
        match self.assert_kind(parent, FileKind::Directory, path) {
            Ok(()) => {},
            Err(e) => {
                return Err(e);
            },
        }
        match self.find_entry(parent, name) {
            Ok(Some(entry)) => Ok((parent, entry.inode)),
            Ok(None) => Err(FsError::NotFound(path.to_string())),
            Err(e) => Err(e),
        }
    }

    /// Clears the entry under `name` in the directory `dir` and gives back
    /// inode `id`.
    fn detach(&mut self, dir: InodeId, name: &str, id: InodeId) -> (r: Result<()>)
        requires
            old(self)@.shaped(),
            dir < old(self)@.inodes.len(),
            id < old(self)@.inodes.len(),
            old(self)@.search_readable(old(self)@.inodes[dir as int], named(name@)),
            old(self)@.freeable(id),
        ensures
            final(self)@ == old(self)@.detach(dir, name@, id).0,
            match (r, old(self)@.detach(dir, name@, id).1) {
                (Ok(()), Ok(())) => true,
                (Err(e), Err(s)) => e@ == s,
                _ => false,
            },
    {
        match self.remove_dir_entry(dir, name) {
            Ok(()) => {
                self.image.free_inode(id);
                Ok(())
            },
            Err(e) => Err(e),
        }
    }

    /// Removes a regular file. Directories must be empty and removed via
    /// [`Fs::rmdir`].
    pub fn unlink(&mut self, path: &str) -> (r: Result<()>)
        requires
            old(self)@.can_unlink(path@),
        ensures
            final(self)@ == old(self)@.unlink(path@).0,
            match (r, old(self)@.unlink(path@).1) {
                (Ok(()), Ok(())) => true,
                (Err(e), Err(s)) => e@ == s,
                _ => false,
            },
            old(self)@.sound() ==> final(self)@.sound() && final(self)@.in_range(),
            old(self)@.regular() ==> final(self)@.regular(),
            old(self)@.healthy() ==> final(self)@.healthy(),
    {
        proof {
            self@.lemma_remove_upkeep(path@);
            if self@.in_range() {
                self@.lemma_remove_readable(path@);
            }
        }
        let (parent_parts, name) = match split_parent(path) {
            Ok(Some(t)) => t,
            Ok(None) => {
                return Err(FsError::IsADirectory("/".to_string()));
            },
            Err(e) => {
                return Err(e);
            },
        };
        let (parent, id) = match self.find_occupant(&parent_parts, name.as_str(), path) {
            Ok(t) => t,
            Err(e) => {
                return Err(e);
            },
        };
        assert(self@.inodes[id as int] == self.image.inodes@[id as int]@);
        if self.image.inodes[id as usize].kind == FileKind::Directory {
            return Err(FsError::IsADirectory(path.to_string()));
        }
        proof {
            self@.lemma_search_within_scan(self@.inodes[parent as int], named(name@));
        }
        self.detach(parent, name.as_str(), id)
    }

    /// Removes an empty directory.
    pub fn rmdir(&mut self, path: &str) -> (r: Result<()>)
        requires
            old(self)@.can_rmdir(path@),
        ensures
            final(self)@ == old(self)@.rmdir(path@).0,
            match (r, old(self)@.rmdir(path@).1) {
                (Ok(()), Ok(())) => true,
                (Err(e), Err(s)) => e@ == s,
                _ => false,
            },
            old(self)@.sound() ==> final(self)@.sound() && final(self)@.in_range(),
            old(self)@.regular() ==> final(self)@.regular(),
            old(self)@.healthy() ==> final(self)@.healthy(),
    {
        proof {
            self@.lemma_remove_upkeep(path@);
            if self@.in_range() {
                self@.lemma_remove_readable(path@);
            }
        }
        let (parent_parts, name) = match split_parent(path) {
            Ok(Some(t)) => t,
            Ok(None) => {
                return Err(FsError::IsADirectory("/".to_string()));
            },
            Err(e) => {
                return Err(e);
            },
        };
        let (parent, id) = match self.find_occupant(&parent_parts, name.as_str(), path) {
            Ok(t) => t,
            Err(e) => {
                return Err(e);
            },
        };
        assert(self@.inodes[id as int] == self.image.inodes@[id as int]@);
        if self.image.inodes[id as usize].kind != FileKind::Directory {
            return Err(FsError::NotADirectory(path.to_string()));
        }
        match self.readdir_id(id) {
            Ok(items) => {
                if items.len() > 0 {
                    return Err(FsError::AlreadyExists(joined(path, " not empty")));
                }
                assert(self@.list(id)->Ok_0 =~= Seq::empty());
            },
            Err(e) => {
                return Err(e);
            },
        }
        proof {
            self@.lemma_search_within_scan(self@.inodes[parent as int], named(name@));
        }
        self.detach(parent, name.as_str(), id)
    }
}

} // verus!
