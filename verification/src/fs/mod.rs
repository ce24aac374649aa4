//! The filesystem handle and its operations.

mod check;
mod dirs;
mod guard;
mod ops;
mod persist;
mod pointers;
mod remove;
mod write;

use vstd::prelude::*;
use crate::block::Image;
use crate::inode::{FileKind, InodeId};
use crate::model::image::ImageView;
use crate::model::tree::{ItemView, StatView};

verus! {

/// Result of `stat()` — a snapshot of an inode's metadata.
#[derive(Debug, Clone, Copy, PartialEq, Eq)]
pub struct Stat {
    /// Inode id of the entry.
    pub inode: InodeId,
    /// Whether the entry is a file or directory.
    pub kind: FileKind,
    /// Logical size in bytes.
    pub size: u64,
    /// Number of hard links pointing at this inode (always 1 today).
    pub link_count: u16,
    /// Number of data blocks used by this entry.
    pub blocks: u32,
}

impl View for Stat {
    type V = StatView;

    open spec fn view(&self) -> StatView {
        StatView {
            inode: self.inode,
            kind: self.kind,
            size: self.size,
            link_count: self.link_count,
            blocks: self.blocks as int,
        }
    }
}

/// One directory listing item produced by [`Fs::readdir`].
#[derive(Debug, Clone, PartialEq, Eq)]
pub struct Entry {
    /// Filename (last path component).
    pub name: String,
    /// Inode id pointed at by this entry.
    pub inode: InodeId,
    /// Kind of the target inode.
    pub kind: FileKind,
}

impl View for Entry {
    type V = ItemView;

    open spec fn view(&self) -> ItemView {
        ItemView { name: self.name@, inode: self.inode, kind: self.kind }
    }
}

/// The values of the listing items in `v`.
pub open spec fn item_views(v: Seq<Entry>) -> Seq<ItemView> {
    Seq::new(v.len(), |i: int| v[i]@)
}

/// Outcome of [`Fs::fsck`] — a list of consistency findings.
#[derive(Debug, Clone)]
pub struct FsckReport {
    /// Human-readable consistency issues; empty when the image is clean.
    pub issues: Vec<String>,
}

impl Default for FsckReport {
    /// Returns a report without issues.
    fn default() -> (report: Self)
        ensures
            report.issues@ == Seq::<String>::empty(),
    {
        FsckReport { issues: Vec::new() }
    }
}

impl FsckReport {
    /// Returns `true` when the filesystem is consistent.
    pub fn is_clean(&self) -> (clean: bool)
        ensures
            clean == (self.issues@.len() == 0),
    {
        self.issues.len() == 0
    }
}

/// The filesystem handle. All public operations go through this type.
pub struct Fs {
    image: Image,
}

impl View for Fs {
    type V = ImageView;

    closed spec fn view(&self) -> ImageView {
        self.image@
    }
}

} // verus!
