//! From logical block numbers to data blocks.

use vstd::prelude::*;
use crate::codec::{get_u32, put_u32};
use crate::error::{FsError, Result};
use crate::fs::Fs;
use crate::inode::{null_pointers, Inode, InodeId, DIRECT_POINTERS, NULL_BLOCK};
use crate::model::image::lemma_first_clear;

verus! {

impl Fs {
    /// Empties inode `id` and releases its blocks.
    pub(crate) fn truncate(&mut self, id: InodeId)
        requires
            old(self)@.shaped(),
            id < old(self)@.inodes.len(),
            old(self)@.freeable(id),
        ensures
            final(self)@ == old(self)@.truncated(id as int),
    {
        self.image.release_blocks(id);
        self.image.inodes[id as usize].direct = [NULL_BLOCK; DIRECT_POINTERS];
        self.image.inodes[id as usize].indirect = NULL_BLOCK;
        self.image.inodes[id as usize].size = 0;
        proof {
            assert(self.image.inodes@[id as int].direct@ =~= null_pointers());
            assert(self@ =~= old(self)@.truncated(id as int));
        }
    }

    /// Returns the data block of `inode` at `block_index`, if it has one.
    pub(crate) fn logical_block(&self, inode: &Inode, block_index: u64) -> (b: Option<u32>)
        requires
            self@.shaped(),
            inode@.direct.len() == DIRECT_POINTERS,
            self@.pointer_readable(inode@, block_index as int),
        ensures
            b == self@.logical_block(inode@, block_index as int),
    {
        if block_index < DIRECT_POINTERS as u64 {
            let b: u32 = inode.direct[block_index as usize];
            if b == NULL_BLOCK {
                None
            } else {
                Some(b)
            }
        } else {
            if inode.indirect == NULL_BLOCK {
                return None;
            }
            let pointers_per_block: u64 = self.image.sb.block_size as u64 / 4;
            let off_idx: u64 = block_index - DIRECT_POINTERS as u64;
            if off_idx >= pointers_per_block {
                return None;
            }
            let off: usize = off_idx as usize * 4;
            let blk: &Vec<u8> = &self.image.blocks[inode.indirect as usize];
            assert(blk@ == self@.blocks[inode.indirect as int]);
            let ptr: u32 = get_u32(blk.as_slice(), off);
            if ptr == NULL_BLOCK {
                None
            } else {
                Some(ptr)
            }
        }
    }

    /// Gives inode `id` an indirect block in which every pointer is unused.
    fn alloc_indirect(&mut self, id: InodeId) -> (r: Result<u32>)
        requires
            old(self)@.shaped(),
            id < old(self)@.inodes.len(),
        ensures
            final(self)@ == old(self)@.alloc_indirect(id as int).0,
            match (r, old(self)@.alloc_indirect(id as int).1) {
                (Ok(b), Ok(s)) => b == s,
                (Err(e), Err(s)) => e@ == s,
                _ => false,
            },
    {
        proof {
            lemma_first_clear(self@.bitmap, 0);
        }
        let new: u32 = match self.image.alloc_block() {
            Ok(b) => b,
            Err(e) => {
                return Err(e);
            },
        };
        let ghost claimed = self@;
        let block_size: usize = self.image.sb.block_size as usize;
        let used: usize = block_size / 4 * 4;
        let mut table: Vec<u8> = Vec::with_capacity(block_size);
        while table.len() < block_size
            invariant
                table@.len() <= block_size,
                block_size == claimed.bs(),
                used == 4 * claimed.words(),
                forall|j: int|
                    0 <= j < table@.len() ==> #[trigger] table@[j] == (if j < used {
                        255u8
                    } else {
                        0u8
                    }),
            decreases block_size - table.len(),
        {
            if table.len() < used {
                table.push(255);
            } else {
                table.push(0);
            }
        }
        assert(self.image.blocks@.len() == claimed.blocks.len());
        self.image.blocks[new as usize] = table;
        self.image.inodes[id as usize].indirect = new;
        proof {
            let (img, _) = old(self)@.alloc_indirect(id as int);
            assert(table@ =~= old(self)@.null_block());
            assert(self@.inodes =~= img.inodes);
            assert(self@.blocks =~= img.blocks);
            assert(self@ =~= img);
        }
        Ok(new)
    }

    /// Claims a block and enters it at `block_index`, behind the indirect block
    /// of inode `id`.
    fn alloc_behind_indirect(&mut self, id: InodeId, block_index: u64) -> (r: Result<u32>)
        requires
            old(self)@.shaped(),
            id < old(self)@.inodes.len(),
            old(self)@.inodes[id as int].indirect < old(self)@.blocks.len(),
            0 <= block_index - DIRECT_POINTERS < old(self)@.words(),
        ensures
            final(self)@ == old(self)@.alloc_behind_indirect(id as int, block_index as int).0,
            match (r, old(self)@.alloc_behind_indirect(id as int, block_index as int).1) {
                (Ok(b), Ok(s)) => b == s,
                (Err(e), Err(s)) => e@ == s,
                _ => false,
            },
    {
        proof {
            lemma_first_clear(self@.bitmap, 0);
        }
        let new: u32 = match self.image.alloc_block() {
            Ok(b) => b,
            Err(e) => {
                return Err(e);
            },
        };
        let indirect: usize = self.image.inodes[id as usize].indirect as usize;
        let off: usize = (block_index - DIRECT_POINTERS as u64) as usize * 4;
        proof {
            assert(self@.shaped());
            assert(self.image.blocks@.len() == self@.blocks.len());
            assert(self@.blocks[indirect as int].len() == self@.bs());
        }
        put_u32(self.image.blocks[indirect].as_mut_slice(), off, new);
        proof {
            let (img, _) = old(self)@.alloc_behind_indirect(id as int, block_index as int);
            assert(self@.inodes =~= img.inodes);
            assert(self@.blocks =~= img.blocks);
            assert(self@ =~= img);
        }
        Ok(new)
    }

    /// Returns the data block of inode `id` at `block_index`, claiming one if
    /// there is none.
    pub(crate) fn alloc_logical_block(&mut self, id: InodeId, block_index: u64) -> (r: Result<u32>)
        requires
            old(self)@.shaped(),
            id < old(self)@.inodes.len(),
            old(self)@.pointer_readable(old(self)@.inodes[id as int], block_index as int),
        ensures
            final(self)@ == old(self)@.alloc_logical_block(id as int, block_index as int).0,
            match (r, old(self)@.alloc_logical_block(id as int, block_index as int).1) {
                (Ok(b), Ok(s)) => b == s,
                (Err(e), Err(s)) => e@ == s,
                _ => false,
            },
            final(self)@.shaped(),
            final(self)@.sb == old(self)@.sb,
    {
        proof {
            lemma_first_clear(self@.bitmap, 0);
        }
        assert(self@.inodes[id as int] == self.image.inodes@[id as int]@);
        if let Some(b) = self.logical_block(&self.image.inodes[id as usize], block_index) {
            return Ok(b);
        }
        if block_index < DIRECT_POINTERS as u64 {
            let new: u32 = match self.image.alloc_block() {
                Ok(b) => b,
                Err(e) => {
                    return Err(e);
                },
            };
            self.image.inodes[id as usize].direct[block_index as usize] = new;
            proof {
                let (img, _) = old(self)@.alloc_logical_block(id as int, block_index as int);
                assert(self@.inodes =~= img.inodes);
                assert(self@ =~= img);
            }
            Ok(new)
        } else {
            let pointers_per_block: u64 = self.image.sb.block_size as u64 / 4;
            let off_idx: u64 = block_index - DIRECT_POINTERS as u64;
            if off_idx >= pointers_per_block {
                return Err(FsError::FileTooLarge);
            }
            if self.image.inodes[id as usize].indirect == NULL_BLOCK {
                match self.alloc_indirect(id) {
                    Ok(_) => {},
                    Err(e) => {
                        return Err(e);
                    },
                }
                proof {
                    lemma_first_clear(self@.bitmap, 0);
                }
            }
            self.alloc_behind_indirect(id, block_index)
        }
    }
}

} // verus!
