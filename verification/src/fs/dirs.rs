//! Reading and changing the entries of a directory.

use vstd::prelude::*;
use crate::block::{DirEntry, DIR_ENTRY_SIZE};
use crate::codec::put_zeros;
use crate::error::{ErrorView, FsError, Result};
use crate::fs::{item_views, Entry, Fs};
use crate::inode::{Inode, InodeId, DIRECT_POINTERS};
use crate::model::dir::{
    block_entries, first_entry_block, lemma_block_entries_err, lemma_search_block_ends, named,
    position_from, search_block, unused,
};
use crate::model::entry::{entry_bytes, used_entry, EntryView};
use crate::model::image::div_ceil;
use crate::text::same_text;

verus! {

/// The values of the entries in `v`.
pub open spec fn entry_views(v: Seq<DirEntry>) -> Seq<EntryView> {
    Seq::new(v.len(), |i: int| v[i]@)
}

/// An entry in use that names `target`.
fn entry_for(name: &str, target: InodeId) -> (e: DirEntry)
    ensures
        e@ == used_entry(name@, target),
{
    DirEntry {
        inode: target,
        used: true,
        name_len: name.as_bytes().len() as u8,
        name: name.to_string(),
    }
}

/// Returns the offset of entry `j` inside a directory block of `bs` bytes.
pub(crate) fn slot_offset(j: usize, bs: usize) -> (off: usize)
    requires
        j < bs / 68,
    ensures
        off == 68 * j,
        off + 68 <= bs,
{
    assert(j * DIR_ENTRY_SIZE == 68 * j) by (nonlinear_arith);
    j * DIR_ENTRY_SIZE
}

impl Fs {
    /// Returns all entries of the directory `dir`, used or not.
    pub(crate) fn iter_dir_entries(&self, dir: InodeId) -> (r: Result<Vec<DirEntry>>)
        requires
            self@.shaped(),
            dir < self@.inodes.len(),
            self@.scan_readable(self@.inodes[dir as int]),
        ensures
            match (r, self@.entries(self@.inodes[dir as int])) {
                (Ok(es), Ok(s)) => entry_views(es@) == s,
                (Err(e), Err(s)) => e@ == s,
                _ => false,
            },
    {
        let inode: &Inode = &self.image.inodes[dir as usize];
        let ghost node = self@.inodes[dir as int];
        assert(node == inode@);
        let bs: u64 = self.image.sb.block_size as u64;
        let entries_per_block: usize = self.image.sb.block_size as usize / DIR_ENTRY_SIZE;
        let mut out: Vec<DirEntry> = Vec::new();
        let total_blocks: u64 = div_ceil(inode.size, bs);
        let mut k: u64 = 0;
        assert(entry_views(out@) =~= Seq::<EntryView>::empty());
        while k < total_blocks
            invariant
                self@.shaped(),
                node == inode@,
                node == self@.inodes[dir as int],
                node.direct.len() == DIRECT_POINTERS,
                self@.scan_readable(node),
                entries_per_block == self@.slots(),
                k <= total_blocks == self@.covered(node),
                self@.scan(node, k as int) is Ok,
                entry_views(out@) == self@.scan(node, k as int)->Ok_0,
            decreases total_blocks - k,
        {
            assert(self@.block_readable(node, k as int));
            let blk: u32 = match self.logical_block(inode, k) {
                Some(b) => b,
                None => {
                    proof {
                        self@.lemma_scan_err(node, k + 1, total_blocks as int);
                    }
                    return Err(FsError::Corrupt("missing directory block".to_string()));
                },
            };
            assert(self.image.blocks@.len() == self@.blocks.len());
            let data: &Vec<u8> = &self.image.blocks[blk as usize];
            assert(data@ == self@.blocks[blk as int]);
            let ghost before = entry_views(out@);
            let mut j: usize = 0;
            assert(before + Seq::<EntryView>::empty() =~= before);
            while j < entries_per_block
                invariant
                    self@.shaped(),
                    entries_per_block == self@.slots(),
                    j <= entries_per_block,
                    node == self@.inodes[dir as int],
                    k < total_blocks == self@.covered(node),
                    self@.scan(node, k as int) is Ok,
                    before == self@.scan(node, k as int)->Ok_0,
                    self@.logical_block(node, k as int) == Some(blk),
                    blk < self@.blocks.len(),
                    data@ == self@.blocks[blk as int],
                    data@.len() == self@.bs(),
                    block_entries(data@, j as int) is Ok,
                    entry_views(out@) == before + block_entries(data@, j as int)->Ok_0,
                decreases entries_per_block - j,
            {
                let off: usize = slot_offset(j, self.image.sb.block_size as usize);
                match DirEntry::decode(&data.as_slice()[off..off + DIR_ENTRY_SIZE]) {
                    Ok(entry) => {
                        let ghost e = entry@;
                        let ghost es = block_entries(data@, j as int)->Ok_0;
                        let ghost prev = entry_views(out@);
                        out.push(entry);
                        proof {
                            assert(entry_views(out@) =~= prev.push(e));
                            assert(before + es.push(e) =~= prev.push(e));
                        }
                    },
                    Err(e) => {
                        proof {
                            lemma_block_entries_err(data@, j + 1, entries_per_block as int);
                            self@.lemma_scan_err(node, k + 1, total_blocks as int);
                        }
                        return Err(e);
                    },
                }
                j = j + 1;
            }
            k = k + 1;
        }
        Ok(out)
    }

    /// Returns the entry of the directory `dir` that is in use under `name`.
    pub(crate) fn find_entry(&self, dir: InodeId, name: &str) -> (r: Result<Option<DirEntry>>)
        requires
            self@.shaped(),
            dir < self@.inodes.len(),
            self@.scan_readable(self@.inodes[dir as int]),
        ensures
            match (r, self@.find_entry(self@.inodes[dir as int], name@)) {
                (Ok(Some(e)), Ok(Some(s))) => e@ == s,
                (Ok(None), Ok(None)) => true,
                (Err(e), Err(s)) => e@ == s,
                _ => false,
            },
    {
        let mut entries: Vec<DirEntry> = match self.iter_dir_entries(dir) {
            Ok(es) => es,
            Err(e) => {
                return Err(e);
            },
        };
        let ghost es = entry_views(entries@);
        let mut i: usize = 0;
        while i < entries.len()
            invariant
                i <= entries@.len(),
                es == entry_views(entries@),
                self@.entries(self@.inodes[dir as int]) == Ok::<Seq<EntryView>, ErrorView>(es),
                position_from(es, name@, 0) == position_from(es, name@, i as int),
            decreases entries.len() - i,
        {
            assert(es[i as int] == entries@[i as int]@);
            if entries[i].used && same_text(entries[i].name.as_str(), name) {
                return Ok(Some(entries.swap_remove(i)));
            }
            i = i + 1;
        }
        Ok(None)
    }

    /// Returns the listing of the directory `dir`.
    pub(crate) fn readdir_id(&self, dir: InodeId) -> (r: Result<Vec<Entry>>)
        requires
            self@.shaped(),
            dir < self@.inodes.len(),
            self@.list_readable(dir),
        ensures
            match (r, self@.list(dir)) {
                (Ok(items), Ok(s)) => item_views(items@) == s,
                (Err(e), Err(s)) => e@ == s,
                _ => false,
            },
    {
        let mut out: Vec<Entry> = Vec::new();
        let entries: Vec<DirEntry> = match self.iter_dir_entries(dir) {
            Ok(es) => es,
            Err(e) => {
                return Err(e);
            },
        };
        let ghost es = entry_views(entries@);
        let mut i: usize = 0;
        assert(item_views(out@) =~= self@.listing(es.take(0)));
        while i < entries.len()
            invariant
                i <= entries@.len(),
                es == entry_views(entries@),
                forall|i: int|
                    0 <= i < es.len() && (#[trigger] es[i]).used ==> es[i].inode
                        < self@.inodes.len(),
                item_views(out@) == self@.listing(es.take(i as int)),
            decreases entries.len() - i,
        {
            let ghost more = es.take(i + 1);
            let ghost prev = item_views(out@);
            proof {
                assert(more.drop_last() =~= es.take(i as int));
                assert(more.last() == es[i as int]);
                assert(es[i as int] == entries@[i as int]@);
            }
            let entry: &DirEntry = &entries[i];
            if entry.used {
                assert(self@.inodes[entry.inode as int] == self.image.inodes@[entry.inode as int]@);
                let item = Entry {
                    name: entry.name.clone(),
                    inode: entry.inode,
                    kind: self.image.inodes[entry.inode as usize].kind,
                };
                let ghost shown = item@;
                out.push(item);
                assert(item_views(out@) =~= prev.push(shown));
            }
            i = i + 1;
        }
        assert(es.take(i as int) =~= es);
        Ok(out)
    }

    /// Returns the first unused entry of the directory `dir`, as block and
    /// position in it.
    fn find_unused(&self, dir: InodeId) -> (r: Result<Option<(u32, usize)>>)
        requires
            self@.shaped(),
            dir < self@.inodes.len(),
            self@.search_readable(self@.inodes[dir as int], unused()),
        ensures
            ({
                let node = self@.inodes[dir as int];
                match (r, self@.search(node, self@.covered(node), unused())) {
                    (Ok(Some(f)), Ok(Some(s))) => {
                        &&& f.0 == s.0 < self@.blocks.len()
                        &&& f.1 == s.1
                        &&& 0 <= s.1 < self@.slots()
                    },
                    (Ok(None), Ok(None)) => true,
                    (Err(e), Err(s)) => e@ == s,
                    _ => false,
                }
            }),
    {
        let inode: &Inode = &self.image.inodes[dir as usize];
        let ghost node = self@.inodes[dir as int];
        assert(node == inode@);
        let bs: u64 = self.image.sb.block_size as u64;
        let entries_per_block: usize = self.image.sb.block_size as usize / DIR_ENTRY_SIZE;
        let total_blocks: u64 = div_ceil(inode.size, bs);
        let mut k: u64 = 0;
        while k < total_blocks
            invariant
                self@.shaped(),
                node == inode@,
                node == self@.inodes[dir as int],
                node.direct.len() == DIRECT_POINTERS,
                self@.search_readable(node, unused()),
                entries_per_block == self@.slots(),
                k <= total_blocks == self@.covered(node),
                self@.search(node, k as int, unused()) == Ok::<Option<(u32, int)>, ErrorView>(None),
            decreases total_blocks - k,
        {
            assert(self@.block_readable(node, k as int));
            let blk: u32 = match self.logical_block(inode, k) {
                Some(b) => b,
                None => {
                    proof {
                        self@.lemma_search_ends(node, k + 1, total_blocks as int, unused());
                    }
                    return Err(FsError::Corrupt("missing directory block".to_string()));
                },
            };
            assert(self.image.blocks@.len() == self@.blocks.len());
            let data: &Vec<u8> = &self.image.blocks[blk as usize];
            assert(data@ == self@.blocks[blk as int]);
            let mut j: usize = 0;
            while j < entries_per_block
                invariant
                    self@.shaped(),
                    entries_per_block == self@.slots(),
                    j <= entries_per_block,
                    node == self@.inodes[dir as int],
                    k < total_blocks == self@.covered(node),
                    self@.search(node, k as int, unused()) == Ok::<
                        Option<(u32, int)>,
                        ErrorView,
                    >(None),
                    self@.logical_block(node, k as int) == Some(blk),
                    blk < self@.blocks.len(),
                    data@ == self@.blocks[blk as int],
                    data@.len() == self@.bs(),
                    search_block(data@, j as int, unused()) == Ok::<Option<int>, ErrorView>(None),
                decreases entries_per_block - j,
            {
                let off: usize = slot_offset(j, self.image.sb.block_size as usize);
                match DirEntry::decode(&data.as_slice()[off..off + DIR_ENTRY_SIZE]) {
                    Ok(entry) => {
                        if !entry.used {
                            proof {
                                lemma_search_block_ends(
                                    data@,
                                    j + 1,
                                    entries_per_block as int,
                                    unused(),
                                );
                                self@.lemma_search_ends(node, k + 1, total_blocks as int, unused());
                            }
                            return Ok(Some((blk, j)));
                        }
                    },
                    Err(e) => {
                        proof {
                            lemma_search_block_ends(
                                data@,
                                j + 1,
                                entries_per_block as int,
                                unused(),
                            );
                            self@.lemma_search_ends(node, k + 1, total_blocks as int, unused());
                        }
                        return Err(e);
                    },
                }
                j = j + 1;
            }
            k = k + 1;
        }
        Ok(None)
    }

    /// Stores `entry` at position `j` of block `blk`.
    fn put_entry(&mut self, blk: u32, j: usize, entry: &DirEntry)
        requires
            old(self)@.shaped(),
            blk < old(self)@.blocks.len(),
            0 <= j < old(self)@.slots(),
        ensures
            final(self)@ == old(self)@.put_entry(blk as int, j as int, entry@),
            final(self)@.shaped(),
    {
        let off: usize = slot_offset(j, self.image.sb.block_size as usize);
        proof {
            assert(self.image.blocks@.len() == self@.blocks.len());
            assert(self@.blocks[blk as int].len() == self@.bs());
        }
        entry.encode_at(self.image.blocks[blk as usize].as_mut_slice(), off);
        proof {
            let img = old(self)@.put_entry(blk as int, j as int, entry@);
            assert(self@.blocks =~= img.blocks);
            assert(self@.inodes =~= img.inodes);
            assert(self@ =~= img);
        }
    }

    /// Adds a block to the directory `dir`, with `entry` as its first entry.
    fn grow_dir(&mut self, dir: InodeId, entry: &DirEntry) -> (r: Result<()>)
        requires
            old(self)@.shaped(),
            dir < old(self)@.inodes.len(),
            old(self)@.bs() > 0,
            old(self)@.growable(dir as int),
        ensures
            final(self)@ == old(self)@.grow(dir as int, entry@).0,
            final(self)@.shaped(),
            match (r, old(self)@.grow(dir as int, entry@).1) {
                (Ok(()), Ok(())) => true,
                (Err(e), Err(s)) => e@ == s,
                _ => false,
            },
    {
        let bs: u64 = self.image.sb.block_size as u64;
        let entries_per_block: usize = self.image.sb.block_size as usize / DIR_ENTRY_SIZE;
        assert(self@.inodes[dir as int] == self.image.inodes@[dir as int]@);
        let total_blocks: u64 = div_ceil(self.image.inodes[dir as usize].size, bs);
        proof {
            let node = self@.inodes[dir as int];
            self@.lemma_alloc_inside(dir as int, total_blocks as int);
            if self@.alloc_logical_block(dir as int, total_blocks as int).1 is Ok {
                self@.lemma_size_bound(node);
            }
        }
        let new_block: u32 = match self.alloc_logical_block(dir, total_blocks) {
            Ok(b) => b,
            Err(e) => {
                return Err(e);
            },
        };
        let ghost claimed = self@;
        proof {
            assert(self.image.blocks@.len() == self@.blocks.len());
            assert(self@.blocks[new_block as int].len() == self@.bs());
            assert(self@.inodes[dir as int].size == old(self)@.inodes[dir as int].size);
            assert(self.image.inodes@[dir as int]@ == self@.inodes[dir as int]);
        }
        assert(entries_per_block * DIR_ENTRY_SIZE == 68 * entries_per_block) by (nonlinear_arith);
        let end: usize = entries_per_block * DIR_ENTRY_SIZE;
        entry.encode_at(self.image.blocks[new_block as usize].as_mut_slice(), 0);
        // The rest of the block holds empty entries, whose bytes are zero.
        put_zeros(self.image.blocks[new_block as usize].as_mut_slice(), DIR_ENTRY_SIZE, end);
        self.image.inodes[dir as usize].size = self.image.inodes[dir as usize].size + bs;
        proof {
            let (img, _) = old(self)@.grow(dir as int, entry@);
            assert(entry_bytes(entry@).len() == DIR_ENTRY_SIZE);
            assert(self.image.blocks@[new_block as int]@ =~= first_entry_block(
                claimed.blocks[new_block as int],
                entry@,
                claimed.slots(),
            ));
            assert(self@.blocks =~= img.blocks);
            assert(self@.inodes =~= img.inodes);
            assert(self@ =~= img);
        }
        Ok(())
    }

    /// Enters `name` for `target` into the directory `dir`.
    pub(crate) fn add_dir_entry(&mut self, dir: InodeId, name: &str, target: InodeId) -> (r: Result<
        (),
    >)
        requires
            old(self)@.shaped(),
            dir < old(self)@.inodes.len(),
            old(self)@.add_readable(dir as int),
        ensures
            final(self)@ == old(self)@.add_entry(dir as int, name@, target).0,
            final(self)@.shaped(),
            match (r, old(self)@.add_entry(dir as int, name@, target).1) {
                (Ok(()), Ok(())) => true,
                (Err(e), Err(s)) => e@ == s,
                _ => false,
            },
    {
        let entry = entry_for(name, target);
        // First try to reuse an unused slot.
        match self.find_unused(dir) {
            Ok(Some((blk, j))) => {
                self.put_entry(blk, j, &entry);
                Ok(())
            },
            // Grow the directory by one block.
            Ok(None) => self.grow_dir(dir, &entry),
            Err(e) => Err(e),
        }
    }

    /// Clears the first entry of the directory `dir` in use under `name`.
    pub(crate) fn remove_dir_entry(&mut self, dir: InodeId, name: &str) -> (r: Result<()>)
        requires
            old(self)@.shaped(),
            dir < old(self)@.inodes.len(),
            old(self)@.search_readable(old(self)@.inodes[dir as int], named(name@)),
        ensures
            final(self)@ == old(self)@.remove_entry(dir as int, name@).0,
            final(self)@.shaped(),
            match (r, old(self)@.remove_entry(dir as int, name@).1) {
                (Ok(()), Ok(())) => true,
                (Err(e), Err(s)) => e@ == s,
                _ => false,
            },
    {
        let ghost node = self@.inodes[dir as int];
        assert(node == self.image.inodes@[dir as int]@);
        let bs: u64 = self.image.sb.block_size as u64;
        let entries_per_block: usize = self.image.sb.block_size as usize / DIR_ENTRY_SIZE;
        let total_blocks: u64 = div_ceil(self.image.inodes[dir as usize].size, bs);
        let mut k: u64 = 0;
        while k < total_blocks
            invariant
                *self == *old(self),
                self@.shaped(),
                dir < self@.inodes.len(),
                node == self@.inodes[dir as int],
                node.direct.len() == DIRECT_POINTERS,
                self@.search_readable(node, named(name@)),
                entries_per_block == self@.slots(),
                k <= total_blocks == self@.covered(node),
                self@.search(node, k as int, named(name@)) == Ok::<
                    Option<(u32, int)>,
                    ErrorView,
                >(None),
            decreases total_blocks - k,
        {
            assert(self@.block_readable(node, k as int));
            assert(node == self.image.inodes@[dir as int]@);
            let blk: u32 = match self.logical_block(&self.image.inodes[dir as usize], k) {
                Some(b) => b,
                None => {
                    proof {
                        self@.lemma_search_ends(node, k + 1, total_blocks as int, named(name@));
                    }
                    return Err(FsError::Corrupt("missing directory block".to_string()));
                },
            };
            let ghost data = self@.blocks[blk as int];
            let mut j: usize = 0;
            while j < entries_per_block
                invariant
                    *self == *old(self),
                    self@.shaped(),
                    dir < self@.inodes.len(),
                    node == self@.inodes[dir as int],
                    entries_per_block == self@.slots(),
                    j <= entries_per_block,
                    k < total_blocks == self@.covered(node),
                    self@.search(node, k as int, named(name@)) == Ok::<
                        Option<(u32, int)>,
                        ErrorView,
                    >(None),
                    self@.logical_block(node, k as int) == Some(blk),
                    blk < self@.blocks.len(),
                    data == self@.blocks[blk as int],
                    data.len() == self@.bs(),
                    search_block(data, j as int, named(name@)) == Ok::<Option<int>, ErrorView>(
                        None,
                    ),
                decreases entries_per_block - j,
            {
                let off: usize = slot_offset(j, self.image.sb.block_size as usize);
                proof {
                    assert(self.image.blocks@.len() == self@.blocks.len());
                    assert(data == self.image.blocks@[blk as int]@);
                }
                match DirEntry::decode(
                    &self.image.blocks[blk as usize].as_slice()[off..off + DIR_ENTRY_SIZE],
                ) {
                    Ok(entry) => {
                        if entry.used && same_text(entry.name.as_str(), name) {
                            proof {
                                lemma_search_block_ends(
                                    data,
                                    j + 1,
                                    entries_per_block as int,
                                    named(name@),
                                );
                                self@.lemma_search_ends(
                                    node,
                                    k + 1,
                                    total_blocks as int,
                                    named(name@),
                                );
                            }
                            self.put_entry(blk, j, &DirEntry::empty());
                            return Ok(());
                        }
                    },
                    Err(e) => {
                        proof {
                            lemma_search_block_ends(
                                data,
                                j + 1,
                                entries_per_block as int,
                                named(name@),
                            );
                            self@.lemma_search_ends(
                                node,
                                k + 1,
                                total_blocks as int,
                                named(name@),
                            );
                        }
                        return Err(e);
                    },
                }
                j = j + 1;
            }
            k = k + 1;
        }
        Err(FsError::NotFound(name.to_string()))
    }
}

} // verus!
