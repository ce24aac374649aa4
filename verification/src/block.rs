//! Block-layer primitives: the superblock, inode table, block bitmap, and
//! the raw data area.
//!
//! Layout (logical):
//!
//! ```text
//! +--------------+-----------------+--------------+-------------+
//! |  Superblock  |   Inode Table   | Block Bitmap | Data Blocks |
//! +--------------+-----------------+--------------+-------------+
//! ```
//!
//! Each data block is a fixed-size `Vec<u8>`. Inodes own block indices
//! into the data area. Free blocks are tracked by a `Vec<bool>` bitmap. The
//! image serializer in [`crate::Fs`] flattens these structures to a single
//! byte stream.

use vstd::prelude::*;
use crate::codec::{get_u32, put_bytes, put_u32, put_zeros, splice, u32_bytes, word};
use crate::error::{FsError, Result};
use crate::inode::{empty_inode, fresh_inode, FileKind, Inode, InodeId, DIRECT_POINTERS, NULL_BLOCK};
use crate::model::entry::{decode_entry, empty_entry, entry_bytes, name_field, EntryView};
use crate::model::image::{
    first_clear, first_clear_from, fresh_image, last_clear_below, live, names_block, new_image,
    released, zeros, ImageView,
};
use crate::text::text_of_bytes;

verus! {

/// Magic bytes used to identify a gridfs image on disk: `GRIDFS01`.
pub const MAGIC: [u8; 8] = [0x47, 0x52, 0x49, 0x44, 0x46, 0x53, 0x30, 0x31];

/// Number of inodes allocated up front. Fixed for simplicity.
pub const INODE_COUNT: usize = 256;

/// On-disk size of a serialized [`Inode`]. Its id is not stored.
pub const INODE_SIZE: usize = 1 + 1 + 2 + 8 + 4 * DIRECT_POINTERS + 4;

/// Smallest number of bytes per data block.
pub const MIN_BLOCK_SIZE: usize = 64;

/// Maximum number of bytes per filename inside a directory entry.
pub const MAX_NAME_LEN: usize = 60;

/// On-disk size of a serialized [`DirEntry`].
pub const DIR_ENTRY_SIZE: usize = 4 + 1 + 1 + 2 + MAX_NAME_LEN;

/// A single record inside a directory's data blocks.
#[derive(Debug, Clone, PartialEq, Eq)]
pub struct DirEntry {
    /// Inode this entry points at.
    pub inode: InodeId,
    /// `true` while this slot is in use.
    pub used: bool,
    /// Length of the name in bytes.
    pub name_len: u8,
    /// UTF-8 name, padded with zero bytes to [`MAX_NAME_LEN`].
    pub name: String,
}

impl View for DirEntry {
    type V = EntryView;

    open spec fn view(&self) -> EntryView {
        EntryView {
            inode: self.inode,
            used: self.used,
            name_len: self.name_len,
            name: self.name@,
        }
    }
}

impl DirEntry {
    /// Returns a placeholder, marked unused.
    pub fn empty() -> (e: Self)
        ensures
            e@ == empty_entry(),
    {
        Self { inode: 0, used: false, name_len: 0, name: String::new() }
    }

    /// Serializes the entry into `buf`, which must be at least
    /// [`DIR_ENTRY_SIZE`] bytes long.
    pub fn encode(&self, buf: &mut [u8])
        requires
            old(buf)@.len() >= DIR_ENTRY_SIZE,
        ensures
            final(buf)@ == splice(old(buf)@, 0, entry_bytes(self@)),
    {
        self.encode_at(buf, 0);
    }

    /// Serializes the entry into `buf`, starting at `off`.
    pub fn encode_at(&self, buf: &mut [u8], off: usize)
        requires
            off + DIR_ENTRY_SIZE <= old(buf)@.len(),
        ensures
            final(buf)@ == splice(old(buf)@, off as int, entry_bytes(self@)),
    {
        let end: usize = buf.len();
        put_u32(buf, off, self.inode);
        buf[off + 4] = if self.used {
            1
        } else {
            0
        };
        buf[off + 5] = self.name_len;
        put_zeros(buf, off + 6, off + DIR_ENTRY_SIZE);
        let bytes: &[u8] = self.name.as_str().as_bytes();
        let n: usize = if bytes.len() < MAX_NAME_LEN {
            bytes.len()
        } else {
            MAX_NAME_LEN
        };
        put_bytes(buf, off + 8, &bytes[0..n]);
        proof {
            assert(u32_bytes(self.inode).len() == 4);
            assert(name_field(self.name@).len() == MAX_NAME_LEN);
            assert(entry_bytes(self@).len() == DIR_ENTRY_SIZE);
            assert(buf@ =~= splice(old(buf)@, off as int, entry_bytes(self@)));
        }
    }

    /// Parses a [`DirEntry`] from `buf`.
    pub fn decode(buf: &[u8]) -> (r: Result<Self>)
        ensures
            match (r, decode_entry(buf@)) {
                (Ok(e), Ok(s)) => e@ == s,
                (Err(e), Err(s)) => e@ == s,
                _ => false,
            },
    {
        if buf.len() < DIR_ENTRY_SIZE {
            return Err(FsError::Corrupt("directory entry truncated".to_string()));
        }
        let inode: u32 = get_u32(buf, 0);
        let used: bool = buf[4] != 0;
        let name_len: u8 = buf[5];
        if name_len as usize > MAX_NAME_LEN {
            return Err(FsError::Corrupt("directory name overflows slot".to_string()));
        }
        match text_of_bytes(&buf[8..8 + name_len as usize]) {
            Some(name) => Ok(Self { inode, used, name_len, name }),
            None => Err(FsError::Corrupt("directory name not utf-8".to_string())),
        }
    }
}

/// Top-level metadata describing image geometry.
#[derive(Debug, Clone, Copy)]
pub struct Superblock {
    /// Bytes per data block.
    pub block_size: u32,
    /// Total number of data blocks.
    pub num_blocks: u32,
    /// Inodes provisioned in the image (always [`INODE_COUNT`] today).
    pub num_inodes: u32,
    /// Root inode id (always 0).
    pub root_inode: u32,
}

/// The largest file that the pointer scheme can hold with blocks of `bs` bytes.
pub open spec fn largest_file(bs: int) -> int {
    12 * bs + (bs / 4) * bs
}

impl Superblock {
    /// Returns the maximum addressable file size given the current geometry.
    pub fn max_file_size(&self) -> (size: u64)
        ensures
            size == largest_file(self.block_size as int),
            size == 12 * self.block_size + (self.block_size / 4) * self.block_size,
    {
        let bs: u64 = self.block_size as u64;
        assert(DIRECT_POINTERS as u64 * bs == 12 * bs) by (nonlinear_arith);
        let direct: u64 = DIRECT_POINTERS as u64 * bs;
        let pointers_per_block: u64 = bs / 4;
        assert(pointers_per_block * bs <= 0x4000_0000 * 0xffff_ffff) by (nonlinear_arith)
            requires
                pointers_per_block <= 0x4000_0000,
                bs <= 0xffff_ffff,
        ;
        let indirect: u64 = pointers_per_block * bs;
        direct + indirect
    }
}

/// In-memory image — superblock, inodes, free-block bitmap, and data area.
#[derive(Debug)]
pub struct Image {
    /// Geometry of the image.
    pub sb: Superblock,
    /// Fixed-size table of all inodes.
    pub inodes: Vec<Inode>,
    /// One flag per data block; `true` means allocated.
    pub bitmap: Vec<bool>,
    /// Raw data area, one `Vec<u8>` per data block.
    pub blocks: Vec<Vec<u8>>,
}

impl View for Image {
    type V = ImageView;

    open spec fn view(&self) -> ImageView {
        ImageView {
            sb: self.sb,
            inodes: Seq::new(self.inodes@.len(), |i: int| self.inodes@[i]@),
            bitmap: self.bitmap@,
            blocks: Seq::new(self.blocks@.len(), |b: int| self.blocks@[b]@),
        }
    }
}

impl Image {
    /// Creates a fresh, freshly formatted image of the given geometry.
    ///
    /// Allocates the root directory inode and zeroes the data area. Blocks have
    /// at least [`MIN_BLOCK_SIZE`] bytes.
    pub fn new(block_size: usize, num_blocks: usize) -> (r: Result<Self>)
        ensures
            match (r, new_image(block_size as nat, num_blocks as nat)) {
                (Ok(img), Ok(s)) => img@ == s,
                (Err(e), Err(s)) => e@ == s,
                _ => false,
            },
            r is Ok <==> block_size >= 64 && num_blocks > 0,
            r matches Ok(img) ==> {
                &&& block_size <= u32::MAX ==> img.sb.block_size == block_size
                &&& num_blocks <= u32::MAX ==> img.sb.num_blocks == num_blocks
                &&& img.sb.num_inodes == 256
                &&& img.sb.root_inode == 0
                &&& img.inodes@.len() == 256
                &&& img.bitmap@.len() == num_blocks
                &&& forall|b: int| 0 <= b < num_blocks ==> !(#[trigger] img.bitmap@[b])
                &&& img.blocks@.len() == num_blocks
                &&& forall|b: int|
                    0 <= b < num_blocks ==> (#[trigger] img.blocks@[b])@.len() == block_size
            },
    {
        if block_size < MIN_BLOCK_SIZE {
            return Err(FsError::Corrupt("block size must be at least 64 bytes".to_string()));
        }
        if num_blocks == 0 {
            return Err(FsError::Corrupt("num_blocks must be > 0".to_string()));
        }
        let sb = Superblock {
            block_size: block_size as u32,
            num_blocks: num_blocks as u32,
            num_inodes: INODE_COUNT as u32,
            root_inode: 0,
        };
        let mut inodes: Vec<Inode> = Vec::with_capacity(INODE_COUNT);
        inodes.push(Inode::new(0, FileKind::Directory));
        let mut i: usize = 1;
        while i < INODE_COUNT
            invariant
                1 <= i <= INODE_COUNT,
                inodes@.len() == i,
                inodes@[0]@ == fresh_inode(0, FileKind::Directory),
                forall|j: int| 1 <= j < i ==> (#[trigger] inodes@[j])@ == empty_inode(j as u32),
            decreases INODE_COUNT - i,
        {
            inodes.push(Inode::empty(i as u32));
            i = i + 1;
        }
        let bitmap: Vec<bool> = vec![false; num_blocks];
        let mut blocks: Vec<Vec<u8>> = Vec::with_capacity(num_blocks);
        let mut b: usize = 0;
        while b < num_blocks
            invariant
                b <= num_blocks,
                blocks@.len() == b,
                forall|j: int| 0 <= j < b ==> (#[trigger] blocks@[j])@ == zeros(block_size as nat),
            decreases num_blocks - b,
        {
            let block: Vec<u8> = vec![0u8; block_size];
            assert(block@ =~= zeros(block_size as nat));
            blocks.push(block);
            b = b + 1;
        }
        let img = Self { sb, inodes, bitmap, blocks };
        proof {
            let s = fresh_image(block_size as nat, num_blocks as nat);
            assert(img@.inodes =~= s.inodes);
            assert(img@.bitmap =~= s.bitmap);
            assert(img@.blocks =~= s.blocks);
        }
        Ok(img)
    }

    /// Returns the first free data block, marks it as allocated, and zeros it.
    pub fn alloc_block(&mut self) -> (r: Result<u32>)
        requires
            first_clear(old(self)@.bitmap) < old(self)@.bitmap.len() ==> first_clear(
                old(self)@.bitmap,
            ) < old(self)@.blocks.len(),
        ensures
            final(self)@ == old(self)@.alloc_block().0,
            match (r, old(self)@.alloc_block().1) {
                (Ok(b), Ok(s)) => b == s,
                (Err(e), Err(s)) => e@ == s,
                _ => false,
            },
    {
        let mut i: usize = 0;
        while i < self.bitmap.len()
            invariant
                i <= self.bitmap@.len(),
                first_clear(self.bitmap@) < self.bitmap@.len() ==> first_clear(self.bitmap@)
                    < self.blocks@.len(),
                *self == *old(self),
                first_clear(self.bitmap@) == first_clear_from(self.bitmap@, i as int),
            decreases self.bitmap.len() - i,
        {
            if !self.bitmap[i] {
                self.bitmap[i] = true;
                let n: usize = self.blocks[i].len();
                put_zeros(self.blocks[i].as_mut_slice(), 0, n);
                proof {
                    assert(self.blocks@[i as int]@ =~= zeros(n as nat));
                    assert(self@.blocks =~= old(self)@.alloc_block().0.blocks);
                    assert(self@.inodes =~= old(self)@.inodes);
                }
                return Ok(i as u32);
            }
            i = i + 1;
        }
        Err(FsError::OutOfSpace)
    }

    /// Releases a previously allocated data block.
    pub fn free_block(&mut self, idx: u32)
        ensures
            final(self)@ == old(self)@.free_block(idx),
    {
        if (idx as usize) < self.bitmap.len() {
            self.bitmap[idx as usize] = false;
        }
        assert(self@ =~= old(self)@.free_block(idx));
    }

    /// Allocates a free inode of the given kind, the first in the table.
    pub fn alloc_inode(&mut self, kind: FileKind) -> (r: Result<InodeId>)
        ensures
            final(self)@ == old(self)@.alloc_inode(kind).0,
            match (r, old(self)@.alloc_inode(kind).1) {
                (Ok(id), Ok(s)) => id == s,
                (Err(e), Err(s)) => e@ == s,
                _ => false,
            },
    {
        let mut i: usize = 0;
        while i < self.inodes.len()
            invariant
                i <= self.inodes@.len(),
                *self == *old(self),
                first_clear(self@.in_use()) == first_clear_from(self@.in_use(), i as int),
            decreases self.inodes.len() - i,
        {
            if !self.inodes[i].allocated {
                let id: u32 = self.inodes[i].id;
                self.inodes[i] = Inode::new(id, kind);
                assert(self@ =~= old(self)@.alloc_inode(kind).0);
                return Ok(id);
            }
            i = i + 1;
        }
        Err(FsError::OutOfInodes)
    }

    /// Returns the position of the inode that a new file or directory gets, or
    /// the length of the table if all inodes are in use.
    pub fn vacant_inode(&self, kind: FileKind) -> (i: usize)
        ensures
            i == self@.vacant(kind),
    {
        let n: usize = self.inodes.len();
        if kind == FileKind::File {
            let mut i: usize = 0;
            while i < n && self.inodes[i].allocated
                invariant
                    i <= n == self.inodes@.len(),
                    first_clear(self@.in_use()) == first_clear_from(self@.in_use(), i as int),
                decreases n - i,
            {
                i = i + 1;
            }
            i
        } else {
            let mut i: usize = n;
            while i > 0 && self.inodes[i - 1].allocated
                invariant
                    i <= n == self.inodes@.len(),
                    last_clear_below(self@.in_use(), n as int) == last_clear_below(
                        self@.in_use(),
                        i as int,
                    ),
                decreases i,
            {
                i = i - 1;
            }
            if i == 0 {
                n
            } else {
                i - 1
            }
        }
    }

    /// Allocates an inode for a new file or directory: for a file the first
    /// free one, for a directory the last.
    pub fn claim_inode(&mut self, kind: FileKind) -> (r: Result<InodeId>)
        ensures
            final(self)@ == old(self)@.claim_inode(kind).0,
            match (r, old(self)@.claim_inode(kind).1) {
                (Ok(id), Ok(s)) => id == s,
                (Err(e), Err(s)) => e@ == s,
                _ => false,
            },
    {
        let i: usize = self.vacant_inode(kind);
        proof {
            self@.lemma_vacant(kind);
        }
        if i == self.inodes.len() {
            return Err(FsError::OutOfInodes);
        }
        let id: u32 = self.inodes[i].id;
        self.inodes[i] = Inode::new(id, kind);
        assert(self@ =~= old(self)@.claim_inode(kind).0);
        Ok(id)
    }

    /// Frees the inode at `id` and releases all blocks it referenced.
    pub fn free_inode(&mut self, id: InodeId)
        requires
            id < old(self)@.inodes.len(),
            old(self)@.inodes[id as int].allocated ==> old(self)@.pointers_readable(
                old(self)@.inodes[id as int],
            ),
        ensures
            final(self)@ == old(self)@.free_inode(id),
    {
        self.release_blocks(id);
        self.inodes[id as usize] = Inode::empty(id);
        assert(self@ =~= old(self)@.free_inode(id));
    }

    /// Marks every block that inode `id` refers to as free.
    pub fn release_blocks(&mut self, id: InodeId)
        requires
            id < old(self)@.inodes.len(),
            old(self)@.inodes[id as int].allocated ==> old(self)@.pointers_readable(
                old(self)@.inodes[id as int],
            ),
        ensures
            final(self)@ == (ImageView {
                bitmap: released(old(self)@.bitmap, old(self)@.gather(id as int)),
                ..old(self)@
            }),
    {
        let pointers: Vec<u32> = self.gather_pointers(id);
        let mut i: usize = 0;
        assert(self@.bitmap =~= released(old(self)@.bitmap, pointers@.take(0)));
        while i < pointers.len()
            invariant
                i <= pointers@.len(),
                self@ == (ImageView {
                    bitmap: released(old(self)@.bitmap, pointers@.take(i as int)),
                    ..old(self)@
                }),
            decreases pointers.len() - i,
        {
            let ghost done = pointers@.take(i as int);
            let ghost more = pointers@.take(i + 1);
            self.free_block(pointers[i]);
            proof {
                assert(more =~= done.push(pointers@[i as int]));
                assert forall|b: int| #![auto] names_block(more, b) == (names_block(done, b)
                    || pointers@[i as int] == b) by {
                    if names_block(done, b) {
                        let j = choose|j: int| 0 <= j < done.len() && #[trigger] done[j] == b;
                        assert(more[j] == b);
                    }
                    if pointers@[i as int] == b {
                        assert(more[i as int] == b);
                    }
                    if names_block(more, b) {
                        let j = choose|j: int| 0 <= j < more.len() && #[trigger] more[j] == b;
                        if j < i {
                            assert(done[j] == b);
                        }
                    }
                }
                assert(self@.bitmap =~= released(old(self)@.bitmap, more));
            }
            i = i + 1;
        }
        assert(pointers@.take(i as int) =~= pointers@);
    }

    /// Returns every data block referenced by an inode, including the indirect
    /// block itself.
    pub fn gather_pointers(&self, id: InodeId) -> (ptrs: Vec<u32>)
        requires
            id < self@.inodes.len(),
            self@.inodes[id as int].allocated ==> self@.pointers_readable(
                self@.inodes[id as int],
            ),
        ensures
            ptrs@ == self@.gather(id as int),
    {
        let mut out: Vec<u32> = Vec::new();
        let inode: &Inode = &self.inodes[id as usize];
        let ghost node = inode@;
        assert(node == self@.inodes[id as int]);
        if !inode.allocated {
            return out;
        }
        let ghost fields = self@.pointer_fields(node);
        let mut k: usize = 0;
        assert(out@ =~= live(fields.take(0)));
        while k < DIRECT_POINTERS
            invariant
                k <= DIRECT_POINTERS,
                node == inode@,
                node.direct.len() == DIRECT_POINTERS,
                fields == self@.pointer_fields(node),
                out@ == live(fields.take(k as int)),
            decreases DIRECT_POINTERS - k,
        {
            let b: u32 = inode.direct[k];
            proof {
                let more = fields.take(k + 1);
                assert(more.drop_last() =~= fields.take(k as int));
                assert(more.last() == b);
            }
            if b != NULL_BLOCK {
                out.push(b);
            }
            k = k + 1;
        }
        if inode.indirect != NULL_BLOCK {
            proof {
                let more = fields.take(13);
                assert(more.drop_last() =~= fields.take(12));
                assert(more.last() == node.indirect);
            }
            out.push(inode.indirect);
            let pointers_per_block: usize = self.sb.block_size as usize / 4;
            let blk: &Vec<u8> = &self.blocks[inode.indirect as usize];
            let mut i: usize = 0;
            while i < pointers_per_block
                invariant
                    i <= pointers_per_block,
                    node == inode@,
                    node.direct.len() == DIRECT_POINTERS,
                    node.indirect != NULL_BLOCK,
                    fields == self@.pointer_fields(node),
                    pointers_per_block == self@.words(),
                    blk@ == self@.blocks[node.indirect as int],
                    4 * pointers_per_block <= blk@.len(),
                    out@ == live(fields.take(13 + i)),
                decreases pointers_per_block - i,
            {
                let ptr: u32 = get_u32(blk.as_slice(), i * 4);
                proof {
                    let more = fields.take(13 + i + 1);
                    assert(more.drop_last() =~= fields.take(13 + i));
                    assert(more.last() == word(blk@, i as int));
                }
                if ptr != NULL_BLOCK {
                    out.push(ptr);
                }
                i = i + 1;
            }
        }
        assert(fields.take(fields.len() as int) =~= fields);
        out
    }
}

} // verus!
