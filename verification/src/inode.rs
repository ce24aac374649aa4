//! Inode definitions for gridfs.
//!
//! Each inode tracks one file or directory and points at the data blocks
//! holding its contents. The pointer scheme is a small homage to classic Unix
//! filesystems: every inode has [`DIRECT_POINTERS`] direct block pointers and
//! a single indirect pointer. The indirect block is itself a data block that
//! stores an array of further block indices.
//!
//! For directories, the data blocks contain a serialized list of
//! [`DirEntry`](crate::block::DirEntry) records.

use vstd::prelude::*;

verus! {

/// Number of direct block pointers stored inline in each inode.
pub const DIRECT_POINTERS: usize = 12;

/// Sentinel value used to mark an unused block pointer.
pub const NULL_BLOCK: u32 = 0xffff_ffff;

/// Discriminates between regular files and directories.
#[derive(Debug, Clone, Copy, PartialEq, Eq, Structural)]
pub enum FileKind {
    /// An ordinary, byte-oriented file.
    File,
    /// A container that holds [`DirEntry`](crate::block::DirEntry) records.
    Directory,
}

/// The byte that stands for a file kind in a serialized image.
pub open spec fn kind_byte(kind: FileKind) -> u8 {
    match kind {
        FileKind::File => 1,
        FileKind::Directory => 2,
    }
}

/// The file kind that a byte of a serialized image stands for.
pub open spec fn kind_of_byte(byte: u8) -> Option<FileKind> {
    if byte == 1 {
        Some(FileKind::File)
    } else if byte == 2 {
        Some(FileKind::Directory)
    } else {
        None
    }
}

impl FileKind {
    /// Returns the byte that stands for this kind in a serialized image.
    pub fn to_byte(self) -> (byte: u8)
        ensures
            byte == kind_byte(self),
            self == FileKind::File ==> byte == 1,
            self == FileKind::Directory ==> byte == 2,
    {
        match self {
            FileKind::File => 1,
            FileKind::Directory => 2,
        }
    }

    /// Returns the kind that `byte` stands for, if it stands for one.
    pub fn from_byte(byte: u8) -> (kind: Option<Self>)
        ensures
            kind == kind_of_byte(byte),
            kind == Some(FileKind::File) <==> byte == 1,
            kind == Some(FileKind::Directory) <==> byte == 2,
            kind is None <==> byte != 1 && byte != 2,
    {
        match byte {
            1 => Some(FileKind::File),
            2 => Some(FileKind::Directory),
            _ => None,
        }
    }
}

/// Index of an inode within the inode table.
pub type InodeId = u32;

/// Metadata + block pointers for a single file or directory.
#[derive(Debug, Clone, Copy)]
pub struct Inode {
    /// Self-referential inode id; matches the position in the inode table.
    pub id: InodeId,
    /// Whether this inode describes a file or a directory.
    pub kind: FileKind,
    /// Logical size in bytes.
    pub size: u64,
    /// Direct block pointers; [`NULL_BLOCK`] when unused.
    pub direct: [u32; DIRECT_POINTERS],
    /// Optional single-indirect block; [`NULL_BLOCK`] when unused.
    pub indirect: u32,
    /// Reference count - 1 for a freshly created inode.
    pub link_count: u16,
    /// `true` while this inode is in active use.
    pub allocated: bool,
}

/// The mathematical value of an [`Inode`].
#[verifier::ext_equal]
pub struct InodeView {
    pub id: u32,
    pub kind: FileKind,
    pub size: u64,
    pub direct: Seq<u32>,
    pub indirect: u32,
    pub link_count: u16,
    pub allocated: bool,
}

impl View for Inode {
    type V = InodeView;

    open spec fn view(&self) -> InodeView {
        InodeView {
            id: self.id,
            kind: self.kind,
            size: self.size,
            direct: self.direct@,
            indirect: self.indirect,
            link_count: self.link_count,
            allocated: self.allocated,
        }
    }
}

/// Twelve unused pointers.
pub open spec fn null_pointers() -> Seq<u32> {
    Seq::new(DIRECT_POINTERS as nat, |k: int| NULL_BLOCK)
}

/// A freshly allocated inode without data.
pub open spec fn fresh_inode(id: u32, kind: FileKind) -> InodeView {
    InodeView {
        id,
        kind,
        size: 0,
        direct: null_pointers(),
        indirect: NULL_BLOCK,
        link_count: 1,
        allocated: true,
    }
}

/// An inode that is not in use.
pub open spec fn empty_inode(id: u32) -> InodeView {
    InodeView { link_count: 0, allocated: false, ..fresh_inode(id, FileKind::File) }
}

impl Inode {
    /// Constructs a freshly allocated inode of the given kind.
    pub fn new(id: InodeId, kind: FileKind) -> (node: Self)
        ensures
            node@ == fresh_inode(id, kind),
            node.id == id,
            node.kind == kind,
            node.size == 0,
            forall|k: int| 0 <= k < 12 ==> #[trigger] node.direct@[k] == 0xffff_ffff,
            node.indirect == 0xffff_ffff,
            node.link_count == 1,
            node.allocated,
    {
        let node = Self {
            id,
            kind,
            size: 0,
            direct: [NULL_BLOCK; DIRECT_POINTERS],
            indirect: NULL_BLOCK,
            link_count: 1,
            allocated: true,
        };
        assert(node.direct@ =~= null_pointers());
        node
    }

    /// Returns a placeholder inode used to fill empty table slots.
    pub fn empty(id: InodeId) -> (node: Self)
        ensures
            node@ == empty_inode(id),
            node.id == id,
            node.kind == FileKind::File,
            node.size == 0,
            forall|k: int| 0 <= k < 12 ==> #[trigger] node.direct@[k] == 0xffff_ffff,
            node.indirect == 0xffff_ffff,
            node.link_count == 0,
            !node.allocated,
    {
        let mut node = Self::new(id, FileKind::File);
        node.allocated = false;
        node.link_count = 0;
        node
    }
}

} // verus!
