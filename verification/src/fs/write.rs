//! Writing files.

use vstd::prelude::*;
use crate::block::largest_file;
use crate::codec::{lemma_with_word, put_bytes, put_zeros};
use crate::error::{ErrorView, FsError, Result};
use crate::fs::Fs;
use crate::inode::{FileKind, InodeId, DIRECT_POINTERS, NULL_BLOCK};
use crate::model::image::{ceil_div, lemma_ceil_div, lemma_first_clear, ImageView};
use crate::model::tree::data_block;

verus! {

impl ImageView {
    /// Inode `id` has no data block from the `k`-th on, and its indirect block,
    /// if it has one, lies inside the image and is claimed.
    pub open spec fn writable_from(self, id: int, k: int) -> bool {
        let node = self.inodes[id];
        &&& node.indirect != NULL_BLOCK ==> node.indirect < self.blocks.len()
            && self.bitmap[node.indirect as int]
        &&& forall|j: int| j >= k ==> #[trigger] self.pointer(node, j) == NULL_BLOCK
    }

    /// An emptied inode can be written from its first block on.
    pub proof fn lemma_truncated_writable(self, id: int)
        requires
            self.shaped(),
            0 <= id < self.inodes.len(),
        ensures
            self.truncated(id).shaped(),
            self.truncated(id).writable_from(id, 0),
    {
        let img = self.truncated(id);
        let node = img.inodes[id];
        assert forall|j: int| j >= 0 implies #[trigger] img.pointer(node, j) == NULL_BLOCK by {}
    }

    /// Claiming the `k`-th data block and filling it leaves the inode writable
    /// from the next block on.
    pub proof fn lemma_write_step(self, id: int, k: int, data: Seq<u8>)
        requires
            self.shaped(),
            0 <= id < self.inodes.len(),
            0 <= k,
            self.writable_from(id, k),
            data.len() == self.bs(),
        ensures
            self.block_readable(self.inodes[id], k),
            ({
                let (img, r) = self.alloc_logical_block(id, k);
                &&& img.shaped()
                &&& img.sb == self.sb
                &&& r matches Ok(b) ==> {
                    &&& b < img.blocks.len()
                    &&& img.with_block(b as int, data).shaped()
                    &&& img.with_block(b as int, data).writable_from(id, k + 1)
                }
            }),
    {
        let node = self.inodes[id];
        lemma_first_clear(self.bitmap, 0);
        assert(self.pointer(node, k) == NULL_BLOCK);
        let (img, r) = self.alloc_logical_block(id, k);
        if k >= DIRECT_POINTERS && k - DIRECT_POINTERS < self.words() && node.indirect
            == NULL_BLOCK {
            let (mid, _) = self.alloc_indirect(id);
            lemma_first_clear(mid.bitmap, 0);
        }
        if let Ok(b) = r {
            let out = img.with_block(b as int, data);
            let new = out.inodes[id];
            assert(out.shaped());
            assert forall|j: int| j >= k + 1 implies #[trigger] out.pointer(new, j)
                == NULL_BLOCK by {
                assert(self.pointer(node, j) == NULL_BLOCK);
                if j >= DIRECT_POINTERS && j - DIRECT_POINTERS < self.words() {
                    if k < DIRECT_POINTERS {
                        assert(new.indirect == node.indirect);
                    } else if node.indirect == NULL_BLOCK {
                        let (mid, _) = self.alloc_indirect(id);
                        let table = mid.inodes[id].indirect as int;
                        assert(mid.blocks[table] == self.null_block());
                        self.lemma_null_block(j - DIRECT_POINTERS);
                        lemma_with_word(
                            mid.blocks[table],
                            k - DIRECT_POINTERS,
                            b,
                            j - DIRECT_POINTERS,
                        );
                    } else {
                        lemma_with_word(
                            self.blocks[node.indirect as int],
                            k - DIRECT_POINTERS,
                            b,
                            j - DIRECT_POINTERS,
                        );
                    }
                }
            }
        }
    }

    /// A write that failed stays failed.
    pub proof fn lemma_write_blocks_err(self, id: int, data: Seq<u8>, m: int, n: int)
        requires
            m <= n,
            self.write_blocks(id, data, m).1 is Err,
        ensures
            self.write_blocks(id, data, n) == self.write_blocks(id, data, m),
        decreases n - m,
    {
        if m < n {
            self.lemma_write_blocks_err(id, data, m, n - 1);
        }
    }
}

impl Fs {
    /// Writes `data` to `path`, replacing any existing contents.
    ///
    /// Returns the number of bytes written.
    pub fn write(&mut self, path: &str, data: &[u8]) -> (r: Result<usize>)
        requires
            old(self)@.can_write(path@),
        ensures
            final(self)@ == old(self)@.write(path@, data@).0,
            match (r, old(self)@.write(path@, data@).1) {
                (Ok(n), Ok(s)) => n == s,
                (Err(e), Err(s)) => e@ == s,
                _ => false,
            },
            old(self)@.sound() ==> final(self)@.sound() && final(self)@.in_range(),
            old(self)@.regular() ==> final(self)@.regular(),
            old(self)@.healthy() ==> final(self)@.healthy(),
            old(self)@.clean() ==> final(self)@.clean(),
            (old(self)@.sound() || old(self)@.clean()) && r is Ok ==> final(self)@.read(path@)
                == Ok::<Seq<u8>, ErrorView>(data@),
    {
        proof {
            self@.lemma_write_upkeep(path@, data@);
            if self@.in_range() {
                self@.lemma_lookup_readable(path@);
            }
        }
        let id: InodeId = match self.resolve_path(path) {
            Ok(id) => id,
            Err(e) => {
                return Err(e);
            },
        };
        match self.assert_kind(id, FileKind::File, path) {
            Ok(()) => {},
            Err(e) => {
                return Err(e);
            },
        }
        self.write_inode(id, data)
    }

    /// Writes `data` to `path`, creating the file if needed.
    ///
    /// Returns the number of bytes written.
    pub fn store(&mut self, path: &str, data: &[u8]) -> (r: Result<usize>)
        requires
            old(self)@.can_store(path@),
        ensures
            final(self)@ == old(self)@.store(path@, data@).0,
            match (r, old(self)@.store(path@, data@).1) {
                (Ok(n), Ok(s)) => n == s,
                (Err(e), Err(s)) => e@ == s,
                _ => false,
            },
            old(self)@.sound() ==> final(self)@.sound() && final(self)@.in_range(),
            old(self)@.regular() ==> final(self)@.regular(),
            old(self)@.healthy() && r is Ok ==> final(self)@.healthy(),
            old(self)@.sound() && r is Ok ==> final(self)@.read(path@) == Ok::<
                Seq<u8>,
                ErrorView,
            >(data@),
    {
        proof {
            self@.lemma_store_upkeep(path@, data@);
            if self@.sound() {
                self@.lemma_store_readable(path@);
            }
        }
        match self.stat(path) {
            Ok(_) => {},
            Err(_) => match self.create(path) {
                Ok(_) => {},
                Err(e) => {
                    return Err(e);
                },
            },
        }
        self.write(path, data)
    }

    /// Replaces the contents of the file inode `id` by `data`.
    fn write_inode(&mut self, id: InodeId, data: &[u8]) -> (r: Result<usize>)
        requires
            old(self)@.shaped(),
            id < old(self)@.inodes.len(),
            old(self)@.freeable(id),
        ensures
            final(self)@ == old(self)@.write_file(id as int, data@).0,
            match (r, old(self)@.write_file(id as int, data@).1) {
                (Ok(n), Ok(s)) => n == s,
                (Err(e), Err(s)) => e@ == s,
                _ => false,
            },
    {
        self.truncate(id);
        let ghost cleared = self@;
        proof {
            old(self)@.lemma_truncated_writable(id as int);
        }
        if data.len() as u64 > self.image.sb.max_file_size() {
            return Err(FsError::FileTooLarge);
        }
        let bs: usize = self.image.sb.block_size as usize;
        let total: usize = data.len();
        let ghost count = ceil_div(total as int, bs as int);
        let mut written: usize = 0;
        let mut k: u64 = 0;
        proof {
            if bs > 0 {
                lemma_ceil_div(total as int, bs as int, 0);
            }
        }
        while written < total
            invariant
                id < self@.inodes.len(),
                self@.shaped(),
                self@.writable_from(id as int, k as int),
                self@ == cleared.write_blocks(id as int, data@, k as int).0,
                cleared.write_blocks(id as int, data@, k as int).1 is Ok,
                cleared == old(self)@.truncated(id as int),
                data@.len() <= largest_file(old(self)@.bs()),
                bs == self@.bs() == cleared.bs() == old(self)@.bs(),
                total > 0 ==> bs > 0,
                total == data@.len(),
                count == ceil_div(total as int, bs as int),
                k <= count <= total,
                written <= total,
                written < total ==> written == k * bs,
                written == total ==> k == count,
            decreases total - written,
        {
            let ghost block = data_block(data@, k as int, bs as int);
            let ghost before = self@;
            proof {
                lemma_ceil_div(total as int, bs as int, k as int);
                lemma_ceil_div(total as int, bs as int, k + 1);
                assert((k + 1) * bs == k * bs + bs) by (nonlinear_arith);
                before.lemma_write_step(id as int, k as int, block);
            }
            let chunk: usize = if total - written < bs {
                total - written
            } else {
                bs
            };
            let blk: u32 = match self.alloc_logical_block(id, k) {
                Ok(b) => b,
                Err(e) => {
                    proof {
                        cleared.lemma_write_blocks_err(id as int, data@, k + 1, count);
                    }
                    return Err(e);
                },
            };
            let ghost claimed = self@;
            proof {
                assert(self.image.blocks@.len() == self@.blocks.len());
                assert(self.image.blocks@[blk as int]@ == self@.blocks[blk as int]);
                assert(self@.blocks[blk as int].len() == bs);
            }
            put_bytes(
                self.image.blocks[blk as usize].as_mut_slice(),
                0,
                &data[written..written + chunk],
            );
            put_zeros(self.image.blocks[blk as usize].as_mut_slice(), chunk, bs);
            proof {
                assert(self.image.blocks@[blk as int]@ =~= block);
                assert(self@.blocks =~= claimed.blocks.update(blk as int, block));
                assert(self@.inodes =~= claimed.inodes);
                assert(self@ =~= claimed.with_block(blk as int, block));
            }
            written = written + chunk;
            k = k + 1;
        }
        let ghost stored = self@;
        self.image.inodes[id as usize].size = total as u64;
        proof {
            let done = old(self)@.write_file(id as int, data@).0;
            assert(self@.inodes =~= done.inodes);
            assert(self@.blocks =~= done.blocks);
            assert(self@ =~= done);
        }
        Ok(total)
    }
}

} // verus!
