//! Telling whether an operation stays inside the image.
//!
//! Every operation on an image made by [`Fs::new`] does. A loaded image can hold
//! pointers and entries that lead outside.

use vstd::prelude::*;
use crate::block::{DirEntry, Image, DIR_ENTRY_SIZE, INODE_COUNT, MAX_NAME_LEN};
use crate::error::ErrorView;
use crate::fs::dirs::{entry_views, slot_offset};
use crate::fs::persist::push_slice;
use crate::fs::{item_views, Fs};
use crate::inode::{FileKind, Inode, InodeId, InodeView, DIRECT_POINTERS, NULL_BLOCK};
use crate::model::check::{lemma_unseen, lemma_unseen_bound, no_walk, unseen, WalkView};
use crate::model::dir::{
    block_entries, lemma_block_entries_err, lemma_search_block_ends, search_block, slot, unused,
};
use crate::model::entry::EntryView;
use crate::model::image::{div_ceil, ImageView};
use crate::path::{split_last, split_parent, split_path, texts};

verus! {

impl Fs {
    /// Tells whether the tables have the sizes that the superblock gives.
    fn is_shaped(&self) -> (ok: bool)
        ensures
            ok == self@.shaped(),
    {
        let block_size: usize = self.image.sb.block_size as usize;
        let num_blocks: usize = self.image.sb.num_blocks as usize;
        proof {
            assert(self@.blocks.len() == self.image.blocks@.len());
            assert(self@.inodes.len() == self.image.inodes@.len());
        }
        if self.image.inodes.len() != INODE_COUNT || self.image.bitmap.len()
            != num_blocks || self.image.blocks.len() != num_blocks {
            return false;
        }
        let mut b: usize = 0;
        while b < num_blocks
            invariant
                b <= num_blocks,
                num_blocks == self.image.blocks@.len(),
                self@.blocks.len() == num_blocks,
                block_size == self@.bs(),
                forall|c: int| 0 <= c < b ==> (#[trigger] self@.blocks[c]).len() == self@.bs(),
            decreases num_blocks - b,
        {
            assert(self@.blocks[b as int] == self.image.blocks@[b as int]@);
            if self.image.blocks[b].len() != block_size {
                return false;
            }
            b = b + 1;
        }
        assert forall|i: int| 0 <= i < self@.inodes.len() implies (
        #[trigger] self@.inodes[i]).direct.len() == DIRECT_POINTERS by {
            assert(self@.inodes[i] == self.image.inodes@[i]@);
        }
        true
    }

    /// Tells whether the pointer to the `k`-th data block of `inode` can be
    /// read, and names a block of the image if it is used.
    fn block_stays(&self, inode: &Inode, k: u64) -> (ok: bool)
        requires
            self@.shaped(),
            inode@.direct.len() == DIRECT_POINTERS,
        ensures
            ok == self@.block_readable(inode@, k as int),
    {
        let num_blocks: u32 = self.image.sb.num_blocks;
        let words: u64 = self.image.sb.block_size as u64 / 4;
        let direct: u64 = DIRECT_POINTERS as u64;
        if k >= direct && k - direct < words && inode.indirect != NULL_BLOCK && inode.indirect
            >= num_blocks {
            return false;
        }
        match self.logical_block(inode, k) {
            Some(b) => b < num_blocks,
            None => true,
        }
    }

    /// Tells whether the pointers of `inode` can be gathered.
    fn pointers_stay(&self, inode: &Inode) -> (ok: bool)
        requires
            self@.shaped(),
        ensures
            ok == self@.pointers_readable(inode@),
    {
        inode.indirect == NULL_BLOCK || inode.indirect < self.image.sb.num_blocks
    }

    /// Tells whether all entries of the block `b` can be read.
    fn block_reads(&self, b: u32) -> (ok: bool)
        requires
            self@.shaped(),
            b < self@.blocks.len(),
        ensures
            ok == (block_entries(self@.blocks[b as int], self@.slots()) is Ok),
    {
        let slots: usize = self.image.sb.block_size as usize / DIR_ENTRY_SIZE;
        assert(self.image.blocks@.len() == self@.blocks.len());
        let data: &Vec<u8> = &self.image.blocks[b as usize];
        assert(data@ == self@.blocks[b as int]);
        let mut j: usize = 0;
        while j < slots
            invariant
                j <= slots,
                slots == self@.slots(),
                self@.shaped(),
                data@ == self@.blocks[b as int],
                data@.len() == self@.bs(),
                block_entries(data@, j as int) is Ok,
            decreases slots - j,
        {
            let off: usize = slot_offset(j, self.image.sb.block_size as usize);
            assert(slot(data@, j as int) == data@.subrange(off as int, off + 68));
            match DirEntry::decode(&data.as_slice()[off..off + DIR_ENTRY_SIZE]) {
                Ok(_) => {},
                Err(_) => {
                    proof {
                        lemma_block_entries_err(data@, j + 1, slots as int);
                    }
                    return false;
                },
            }
            j = j + 1;
        }
        true
    }

    /// Tells whether reading all entries of `inode` stays inside the image.
    fn scan_stays(&self, inode: &Inode) -> (ok: bool)
        requires
            self@.shaped(),
            inode@.direct.len() == DIRECT_POINTERS,
        ensures
            ok == self@.scan_readable(inode@),
    {
        let ghost node = inode@;
        if self.image.sb.block_size == 0 {
            return false;
        }
        let total: u64 = div_ceil(inode.size, self.image.sb.block_size as u64);
        let mut k: u64 = 0;
        while k < total
            invariant
                k <= total == self@.covered(node),
                self@.shaped(),
                self@.bs() > 0,
                node == inode@,
                node.direct.len() == DIRECT_POINTERS,
                self@.scan(node, k as int) is Ok,
                forall|i: int| 0 <= i < k ==> #[trigger] self@.block_readable(node, i),
            decreases total - k,
        {
            if !self.block_stays(inode, k) {
                assert(!self@.block_readable(node, k as int));
                return false;
            }
            assert(self@.block_readable(node, k as int));
            let reads: bool = match self.logical_block(inode, k) {
                Some(b) => self.block_reads(b),
                None => false,
            };
            if !reads {
                assert forall|i: int|
                    0 <= i < self@.covered(node) && self@.scan(node, i)
                        is Ok implies #[trigger] self@.block_readable(node, i) by {
                    if i > k {
                        self@.lemma_scan_err(node, k + 1, i);
                    }
                }
                return true;
            }
            k = k + 1;
        }
        true
    }

    /// Tells whether following `parts` stays inside the image.
    fn resolve_stays(&self, parts: &Vec<String>) -> (ok: bool)
        requires
            self@.shaped(),
        ensures
            ok == self@.resolve_readable(texts(parts@)),
    {
        let ghost all = texts(parts@);
        let mut current: InodeId = 0;
        let mut i: usize = 0;
        assert(all.take(0) =~= Seq::empty());
        while i < parts.len()
            invariant
                i <= parts.len(),
                all == texts(parts@),
                self@.shaped(),
                self@.resolve_readable(all.take(i as int)),
                self@.resolve(all.take(i as int)) == Ok::<u32, ErrorView>(current),
                current < self@.inodes.len(),
            decreases parts.len() - i,
        {
            let ghost head = all.take(i as int);
            let ghost next = all.take(i + 1);
            proof {
                assert(next.drop_last() =~= head);
                assert(next.last() == all[i as int]);
                assert(self@.inodes[current as int] == self.image.inodes@[current as int]@);
                self@.lemma_resolve_prefix(all, i + 1);
            }
            let inode: &Inode = &self.image.inodes[current as usize];
            if inode.kind != FileKind::Directory {
                proof {
                    self@.lemma_resolve_stuck(all, i + 1);
                }
                return true;
            }
            if !self.scan_stays(inode) {
                return false;
            }
            match self.find_entry(current, parts[i].as_str()) {
                Ok(Some(e)) => {
                    if e.inode as usize >= INODE_COUNT {
                        return false;
                    }
                    current = e.inode;
                },
                _ => {
                    proof {
                        self@.lemma_resolve_stuck(all, i + 1);
                    }
                    return true;
                },
            }
            i = i + 1;
        }
        assert(all.take(all.len() as int) =~= all);
        true
    }

    /// Returns the inode that `path` names if looking it up stays inside the
    /// image: `None` where it does not, `Some(None)` where it names nothing.
    fn lookup_stays(&self, path: &str) -> (found: Option<Option<InodeId>>)
        ensures
            found is Some <==> self@.lookup_readable(path@),
            found matches Some(Some(id)) ==> self@.lookup(path@) == Ok::<u32, ErrorView>(id) && id
                < self@.inodes.len(),
            found matches Some(None) ==> self@.lookup(path@) is Err,
    {
        match split_path(path) {
            Ok(parts) => {
                if !self.is_shaped() || !self.resolve_stays(&parts) {
                    return None;
                }
            },
            Err(_) => {},
        }
        match self.resolve_path(path) {
            Ok(id) => Some(Some(id)),
            Err(_) => Some(None),
        }
    }

    /// Tells whether [`Fs::stat`] of `path` stays inside the image.
    pub fn can_stat(&self, path: &str) -> (ok: bool)
        ensures
            ok == self@.can_stat(path@),
    {
        proof {
            if self@.in_range() {
                self@.lemma_lookup_readable(path@);
            }
        }
        match self.lookup_stays(path) {
            Some(Some(id)) => {
                let inode: &Inode = &self.image.inodes[id as usize];
                assert(inode@ == self@.inodes[id as int]);
                !inode.allocated || self.pointers_stay(inode)
            },
            Some(None) => true,
            None => false,
        }
    }

    /// Tells whether [`Fs::write`] of `path` stays inside the image.
    pub fn can_write(&self, path: &str) -> (ok: bool)
        ensures
            ok == self@.can_write(path@),
    {
        proof {
            if self@.in_range() {
                self@.lemma_lookup_readable(path@);
            }
        }
        match self.lookup_stays(path) {
            Some(Some(id)) => {
                let inode: &Inode = &self.image.inodes[id as usize];
                assert(inode@ == self@.inodes[id as int]);
                inode.kind != FileKind::File || !inode.allocated || self.pointers_stay(inode)
            },
            Some(None) => true,
            None => false,
        }
    }

    /// Returns the number of data blocks that the size of `inode` covers.
    fn covered_blocks(&self, inode: &Inode) -> (n: u64)
        ensures
            n == self@.covered(inode@),
    {
        if self.image.sb.block_size > 0 {
            div_ceil(inode.size, self.image.sb.block_size as u64)
        } else if inode.size > 0 {
            DIRECT_POINTERS as u64 + 1
        } else {
            0
        }
    }

    /// Tells whether reading the file `inode` stays inside the image.
    fn file_stays(&self, inode: &Inode) -> (ok: bool)
        requires
            self@.shaped(),
            inode@.direct.len() == DIRECT_POINTERS,
        ensures
            ok == self@.file_readable(inode@),
    {
        let ghost node = inode@;
        let total: u64 = self.covered_blocks(inode);
        let mut k: u64 = 0;
        while k < total
            invariant
                k <= total == self@.covered(node),
                self@.shaped(),
                node == inode@,
                node.direct.len() == DIRECT_POINTERS,
                self@.first_missing(node) == self@.first_missing_from(node, k as int),
                forall|i: int| 0 <= i < k ==> #[trigger] self@.block_readable(node, i),
            decreases total - k,
        {
            proof {
                self@.lemma_first_missing(node, k as int);
            }
            if !self.block_stays(inode, k) {
                assert(!self@.block_readable(node, k as int));
                return false;
            }
            match self.logical_block(inode, k) {
                Some(_) => {},
                None => {
                    assert(self@.first_missing(node) == k);
                    assert(self@.block_readable(node, k as int));
                    return true;
                },
            }
            k = k + 1;
        }
        true
    }

    /// Tells whether [`Fs::read`] of `path` stays inside the image.
    pub fn can_read(&self, path: &str) -> (ok: bool)
        ensures
            ok == self@.can_read(path@),
    {
        proof {
            if self@.in_range() {
                self@.lemma_lookup_readable(path@);
            }
        }
        match self.lookup_stays(path) {
            Some(Some(id)) => {
                let inode: &Inode = &self.image.inodes[id as usize];
                assert(inode@ == self@.inodes[id as int]);
                inode.kind != FileKind::File || self.file_stays(inode)
            },
            Some(None) => true,
            None => false,
        }
    }

    /// Tells whether listing the directory `dir` stays inside the image.
    fn list_stays(&self, dir: InodeId) -> (ok: bool)
        requires
            self@.shaped(),
            dir < self@.inodes.len(),
        ensures
            ok == self@.list_readable(dir),
    {
        let inode: &Inode = &self.image.inodes[dir as usize];
        assert(inode@ == self@.inodes[dir as int]);
        if !self.scan_stays(inode) {
            return false;
        }
        match self.iter_dir_entries(dir) {
            Ok(entries) => {
                let ghost es = entry_views(entries@);
                let mut i: usize = 0;
                while i < entries.len()
                    invariant
                        i <= entries.len(),
                        es == entry_views(entries@),
                        self@.shaped(),
                        dir < self@.inodes.len(),
                        self@.entries(self@.inodes[dir as int]) == Ok::<Seq<EntryView>, ErrorView>(
                            es,
                        ),
                        forall|j: int|
                            0 <= j < i && (#[trigger] es[j]).used ==> es[j].inode
                                < self@.inodes.len(),
                    decreases entries.len() - i,
                {
                    assert(es[i as int] == entries@[i as int]@);
                    if entries[i].used && entries[i].inode as usize >= INODE_COUNT {
                        proof {
                            let e = es[i as int];
                            assert(e.used && e.inode >= self@.inodes.len());
                            assert(self@.entries(self@.inodes[dir as int]) matches Ok(all)
                                && all[i as int] == e);
                        }
                        return false;
                    }
                    i = i + 1;
                }
                true
            },
            Err(_) => true,
        }
    }

    /// Tells whether [`Fs::readdir`] of `path` stays inside the image.
    pub fn can_readdir(&self, path: &str) -> (ok: bool)
        ensures
            ok == self@.can_readdir(path@),
    {
        proof {
            if self@.in_range() {
                self@.lemma_lookup_readable(path@);
            }
        }
        match self.lookup_stays(path) {
            Some(Some(id)) => {
                assert(self@.inodes[id as int] == self.image.inodes@[id as int]@);
                self.image.inodes[id as usize].kind != FileKind::Directory || self.list_stays(id)
            },
            Some(None) => true,
            None => false,
        }
    }
}

impl Fs {
    /// Tells whether all entries of the block `b` can be read and are in use.
    fn block_is_full(&self, b: u32) -> (full: bool)
        requires
            self@.shaped(),
            b < self@.blocks.len(),
        ensures
            full == (search_block(self@.blocks[b as int], self@.slots(), unused()) == Ok::<
                Option<int>,
                ErrorView,
            >(None)),
    {
        let slots: usize = self.image.sb.block_size as usize / DIR_ENTRY_SIZE;
        assert(self.image.blocks@.len() == self@.blocks.len());
        let data: &Vec<u8> = &self.image.blocks[b as usize];
        assert(data@ == self@.blocks[b as int]);
        let mut j: usize = 0;
        while j < slots
            invariant
                j <= slots,
                slots == self@.slots(),
                self@.shaped(),
                data@ == self@.blocks[b as int],
                data@.len() == self@.bs(),
                search_block(data@, j as int, unused()) == Ok::<Option<int>, ErrorView>(None),
            decreases slots - j,
        {
            let off: usize = slot_offset(j, self.image.sb.block_size as usize);
            assert(slot(data@, j as int) == data@.subrange(off as int, off + 68));
            let used: bool = match DirEntry::decode(&data.as_slice()[off..off + DIR_ENTRY_SIZE]) {
                Ok(e) => {
                    assert(unused()(e@) == !e.used);
                    e.used
                },
                Err(_) => false,
            };
            if !used {
                proof {
                    lemma_search_block_ends(data@, j + 1, slots as int, unused());
                }
                return false;
            }
            j = j + 1;
        }
        true
    }

    /// Tells whether adding an entry to the directory `inode` stays inside the
    /// image.
    fn add_stays(&self, inode: &Inode) -> (ok: bool)
        requires
            self@.shaped(),
            self@.slots() > 0,
            inode@.direct.len() == DIRECT_POINTERS,
        ensures
            ok == self@.node_add_readable(inode@),
    {
        let ghost node = inode@;
        let total: u64 = self.covered_blocks(inode);
        let mut k: u64 = 0;
        while k < total
            invariant
                k <= total == self@.covered(node),
                self@.shaped(),
                self@.bs() > 0,
                node == inode@,
                node.direct.len() == DIRECT_POINTERS,
                self@.search(node, k as int, unused()) == Ok::<Option<(u32, int)>, ErrorView>(None),
                forall|i: int| 0 <= i < k ==> #[trigger] self@.block_readable(node, i),
            decreases total - k,
        {
            if !self.block_stays(inode, k) {
                assert(!self@.block_readable(node, k as int));
                return false;
            }
            assert(self@.block_readable(node, k as int));
            let full: bool = match self.logical_block(inode, k) {
                Some(b) => self.block_is_full(b),
                None => false,
            };
            if !full {
                proof {
                    self@.lemma_search_ends(node, k + 1, total as int, unused());
                }
                assert forall|i: int|
                    0 <= i < self@.covered(node) && self@.search(node, i, unused()) == Ok::<
                        Option<(u32, int)>,
                        ErrorView,
                    >(None) implies #[trigger] self@.block_readable(node, i) by {
                    if i > k {
                        self@.lemma_search_ends(node, k + 1, i, unused());
                    }
                }
                return true;
            }
            k = k + 1;
        }
        self.block_stays(inode, total)
    }

    /// Tells whether claiming an inode and entering it into the directory `dir`
    /// stays inside the image.
    fn make_in_stays(&self, dir: InodeId, kind: FileKind) -> (ok: bool)
        requires
            self@.shaped(),
            self@.slots() > 0,
            dir < self@.inodes.len(),
        ensures
            ok == self@.make_in_readable(dir as int, kind),
    {
        let i: usize = self.image.vacant_inode(kind);
        proof {
            self@.lemma_vacant(kind);
            assert(self@.inodes.len() == self.image.inodes@.len());
        }
        if i == INODE_COUNT {
            return true;
        }
        assert(self@.inodes[i as int] == self.image.inodes@[i as int]@);
        let inode: &Inode = &self.image.inodes[dir as usize];
        assert(inode@ == self@.inodes[dir as int]);
        let ghost img = self@.claim_inode(kind).0;
        if self.image.inodes[i].id as usize >= INODE_COUNT {
            return false;
        }
        if i == dir as usize {
            proof {
                let node = img.inodes[dir as int];
                vstd::arithmetic::div_mod::lemma_basic_div(img.bs() - 1, img.bs());
                assert(img.covered(node) == 0);
                assert(img.block_readable(node, 0));
            }
            true
        } else {
            proof {
                self@.lemma_same_blocks_add(img, inode@);
            }
            self.add_stays(inode)
        }
    }

    /// Tells whether making an entry at `path` stays inside the image.
    fn make_stays(&self, path: &str, kind: FileKind) -> (ok: bool)
        ensures
            ok == self@.can_make(path@, kind),
    {
        proof {
            if self@.in_range() {
                self@.lemma_make_readable(path@, kind);
            }
        }
        match split_parent(path) {
            Ok(Some((parent_parts, name))) => {
                if !self.is_shaped() || !self.resolve_stays(&parent_parts) {
                    return false;
                }
                match self.resolve_components(&parent_parts) {
                    Ok(dir) => {
                        let inode: &Inode = &self.image.inodes[dir as usize];
                        assert(inode@ == self@.inodes[dir as int]);
                        if inode.kind != FileKind::Directory {
                            return true;
                        }
                        if !self.scan_stays(inode) {
                            return false;
                        }
                        match self.find_entry(dir, name.as_str()) {
                            Ok(None) => name.as_str().as_bytes().len() > MAX_NAME_LEN
                                || (self.image.sb.block_size as usize) < DIR_ENTRY_SIZE
                                || self.make_in_stays(dir, kind),
                            _ => true,
                        }
                    },
                    Err(_) => true,
                }
            },
            _ => true,
        }
    }

    /// Tells whether [`Fs::create`] of `path` stays inside the image.
    pub fn can_create(&self, path: &str) -> (ok: bool)
        ensures
            ok == self@.can_make(path@, FileKind::File),
    {
        self.make_stays(path, FileKind::File)
    }

    /// Tells whether [`Fs::mkdir`] of `path` stays inside the image.
    pub fn can_mkdir(&self, path: &str) -> (ok: bool)
        ensures
            ok == self@.can_make(path@, FileKind::Directory),
    {
        self.make_stays(path, FileKind::Directory)
    }

    /// Returns a filesystem with the same image.
    fn copied(&self) -> (fs: Fs)
        ensures
            fs@ == self@,
    {
        let mut inodes: Vec<Inode> = Vec::new();
        let mut i: usize = 0;
        while i < self.image.inodes.len()
            invariant
                i <= self.image.inodes@.len(),
                inodes@ == self.image.inodes@.take(i as int),
            decreases self.image.inodes.len() - i,
        {
            inodes.push(self.image.inodes[i]);
            i = i + 1;
            assert(inodes@ =~= self.image.inodes@.take(i as int));
        }
        let mut bitmap: Vec<bool> = Vec::new();
        let mut b: usize = 0;
        while b < self.image.bitmap.len()
            invariant
                b <= self.image.bitmap@.len(),
                bitmap@ == self.image.bitmap@.take(b as int),
            decreases self.image.bitmap.len() - b,
        {
            bitmap.push(self.image.bitmap[b]);
            b = b + 1;
            assert(bitmap@ =~= self.image.bitmap@.take(b as int));
        }
        let mut blocks: Vec<Vec<u8>> = Vec::new();
        let mut c: usize = 0;
        while c < self.image.blocks.len()
            invariant
                c <= self.image.blocks@.len(),
                blocks@.len() == c,
                forall|x: int| 0 <= x < c ==> (#[trigger] blocks@[x])@ == self.image.blocks@[x]@,
            decreases self.image.blocks.len() - c,
        {
            let mut block: Vec<u8> = Vec::new();
            push_slice(&mut block, self.image.blocks[c].as_slice());
            assert(block@ =~= self.image.blocks@[c as int]@);
            blocks.push(block);
            c = c + 1;
        }
        let fs = Fs { image: Image { sb: self.image.sb, inodes, bitmap, blocks } };
        proof {
            assert(fs@.inodes =~= self@.inodes);
            assert(fs@.bitmap =~= self@.bitmap);
            assert(fs@.blocks =~= self@.blocks);
        }
        fs
    }

    /// Tells whether [`Fs::store`] of `path` stays inside the image.
    pub fn can_store(&self, path: &str) -> (ok: bool)
        ensures
            ok == self@.can_store(path@),
    {
        proof {
            if self@.sound() {
                self@.lemma_store_readable(path@);
            }
        }
        if !self.can_stat(path) {
            return false;
        }
        match self.stat(path) {
            Ok(_) => self.can_write(path),
            Err(_) => {
                if !self.can_create(path) {
                    return false;
                }
                let mut trial: Fs = self.copied();
                match trial.create(path) {
                    Ok(_) => trial.can_write(path),
                    Err(_) => true,
                }
            },
        }
    }

    /// Returns the inode that `path` names in its parent, if finding it stays
    /// inside the image: `None` where it does not, `Some(None)` where there is
    /// none.
    fn occupant_stays(&self, path: &str) -> (found: Option<Option<InodeId>>)
        ensures
            match split_last(path@) {
                Ok(Some((parts, name))) => {
                    &&& found is Some <==> self@.shaped() && self@.occupant_readable(
                        parts,
                        name,
                        path@,
                    )
                    &&& found matches Some(Some(id)) ==> {
                        &&& self@.occupant(parts, name, path@) matches Ok((_, x)) && x == id
                        &&& id < self@.inodes.len()
                    }
                    &&& found matches Some(None) ==> self@.occupant(parts, name, path@) is Err
                },
                _ => found == Some(None::<InodeId>),
            },
    {
        match split_parent(path) {
            Ok(Some((parent_parts, name))) => {
                if !self.is_shaped() || !self.resolve_stays(&parent_parts) {
                    return None;
                }
                match self.resolve_components(&parent_parts) {
                    Ok(dir) => {
                        let inode: &Inode = &self.image.inodes[dir as usize];
                        assert(inode@ == self@.inodes[dir as int]);
                        if inode.kind != FileKind::Directory {
                            return Some(None);
                        }
                        if !self.scan_stays(inode) {
                            return None;
                        }
                        match self.find_entry(dir, name.as_str()) {
                            Ok(Some(e)) => {
                                if e.inode as usize >= INODE_COUNT {
                                    return None;
                                }
                                Some(Some(e.inode))
                            },
                            _ => Some(None),
                        }
                    },
                    Err(_) => Some(None),
                }
            },
            _ => Some(None),
        }
    }

    /// Tells whether [`Fs::unlink`] of `path` stays inside the image.
    pub fn can_unlink(&self, path: &str) -> (ok: bool)
        ensures
            ok == self@.can_unlink(path@),
    {
        proof {
            if self@.in_range() {
                self@.lemma_remove_readable(path@);
            }
        }
        match self.occupant_stays(path) {
            Some(Some(id)) => {
                let inode: &Inode = &self.image.inodes[id as usize];
                assert(inode@ == self@.inodes[id as int]);
                inode.kind == FileKind::Directory || !inode.allocated || self.pointers_stay(inode)
            },
            Some(None) => true,
            None => false,
        }
    }

    /// Tells whether [`Fs::rmdir`] of `path` stays inside the image.
    pub fn can_rmdir(&self, path: &str) -> (ok: bool)
        ensures
            ok == self@.can_rmdir(path@),
    {
        proof {
            if self@.in_range() {
                self@.lemma_remove_readable(path@);
            }
        }
        match self.occupant_stays(path) {
            Some(Some(id)) => {
                let inode: &Inode = &self.image.inodes[id as usize];
                assert(inode@ == self@.inodes[id as int]);
                if inode.kind != FileKind::Directory {
                    return true;
                }
                if !self.list_stays(id) {
                    return false;
                }
                let empty: bool = match self.readdir_id(id) {
                    Ok(items) => {
                        assert(item_views(items@).len() == items@.len());
                        assert(items@.len() == 0 ==> item_views(items@) =~= Seq::empty());
                        items.len() == 0
                    },
                    Err(_) => false,
                };
                !empty || !inode.allocated || self.pointers_stay(inode)
            },
            Some(None) => true,
            None => false,
        }
    }

    /// Tells whether the walk below `dir` stays inside the image, and marks the
    /// inodes that it comes to in `seen` if it does.
    fn walk_stays(
        &self,
        dir: InodeId,
        seen: &mut Vec<bool>,
        Ghost(w): Ghost<WalkView>,
        Ghost(depth): Ghost<nat>,
    ) -> (ok: bool)
        requires
            self@.shaped(),
            w.seen == old(seen)@,
            old(seen)@.len() == INODE_COUNT,
            unseen(old(seen)@, INODE_COUNT as int) < depth,
        ensures
            ok == self@.walk_readable(w.seen, self@.walk(depth, dir, w).seen),
            ok ==> final(seen)@ == self@.walk(depth, dir, w).seen,
            ok ==> unseen(final(seen)@, INODE_COUNT as int) <= unseen(
                old(seen)@,
                INODE_COUNT as int,
            ),
        decreases depth,
    {
        let ghost all = self@.walk(depth, dir, w).seen;
        proof {
            self@.lemma_walk_grows(depth, dir, w);
        }
        if dir as usize >= seen.len() || seen[dir as usize] {
            return true;
        }
        proof {
            lemma_unseen(seen@, dir as int, INODE_COUNT as int);
        }
        seen[dir as usize] = true;
        let ghost entered = w.with_seen(dir as int);
        let ghost less = (depth - 1) as nat;
        let inode: &Inode = &self.image.inodes[dir as usize];
        assert(inode@ == self@.inodes[dir as int]);
        if inode.kind != FileKind::Directory {
            return true;
        }
        proof {
            if let Ok(es) = self@.entries(self@.inodes[dir as int]) {
                self@.lemma_walk_entries_grows(less, es, es.len(), entered);
            }
            assert(entered.seen[dir as int]);
            assert(all[dir as int]);
        }
        if !self.scan_stays(inode) {
            return false;
        }
        let entries: Vec<DirEntry> = match self.iter_dir_entries(dir) {
            Ok(es) => es,
            Err(_) => {
                return true;
            },
        };
        let ghost es = entry_views(entries@);
        let mut i: usize = 0;
        while i < entries.len()
            invariant
                self@.shaped(),
                i <= entries.len(),
                es == entry_views(entries@),
                depth > 0,
                less == depth - 1,
                dir < w.seen.len(),
                entered == w.with_seen(dir as int),
                seen@.len() == INODE_COUNT == w.seen.len(),
                unseen(seen@, INODE_COUNT as int) < less,
                unseen(seen@, INODE_COUNT as int) < unseen(w.seen, INODE_COUNT as int),
                seen@ == self@.walk_entries(less, es, i as nat, entered).seen,
                all == self@.walk_entries(less, es, es.len(), entered).seen,
                all == self@.walk(depth, dir, w).seen,
                self@.scan_readable(self@.inodes[dir as int]),
                self@.walk_readable(entered.seen, seen@),
            decreases entries.len() - i,
        {
            let entry: &DirEntry = &entries[i];
            assert(entry@ == es[i as int]);
            let ghost before = self@.walk_entries(less, es, i as nat, entered);
            let ghost start = seen@;
            i = i + 1;
            if entry.used {
                let ghost visited = self@.visit(entry@, before);
                proof {
                    assert(visited.seen == before.seen);
                    self@.lemma_walk_entries_prefix(less, es, i as nat, es.len(), entered);
                    self@.lemma_walk_entries_grows(less, es, (i - 1) as nat, entered);
                    self@.lemma_walk_grows(less, entry.inode, visited);
                }
                let ghost next = self@.walk(less, entry.inode, visited).seen;
                if !self.walk_stays(entry.inode, seen, Ghost(visited), Ghost(less)) {
                    proof {
                        let d = choose|d: int|
                            {
                                &&& 0 <= d < next.len()
                                &&& #[trigger] next[d]
                                &&& !start[d]
                                &&& self@.inodes[d].kind == FileKind::Directory
                                &&& !self@.scan_readable(self@.inodes[d])
                            };
                        assert(self@.walk_entries(less, es, es.len(), entered).seen[d]);
                        assert(all[d]);
                        if w.seen[d] {
                            assert(entered.seen[d]);
                            assert(self@.walk_entries(less, es, (i - 1) as nat, entered).seen[d]);
                        }
                    }
                    return false;
                }
                assert forall|d: int|
                    0 <= d < seen@.len() && #[trigger] seen@[d] && !entered.seen[d]
                        && self@.inodes[d].kind == FileKind::Directory implies self@.scan_readable(
                    self@.inodes[d],
                ) by {
                    if start[d] {
                    } else {
                        assert(next[d]);
                    }
                }
            }
        }
        assert forall|d: int|
            0 <= d < all.len() && #[trigger] all[d] && !w.seen[d] && self@.inodes[d].kind
                == FileKind::Directory implies self@.scan_readable(self@.inodes[d]) by {
            if d != dir {
                assert(!entered.seen[d]);
                assert(seen@[d]);
            }
        }
        true
    }

    /// Tells whether [`Fs::fsck`] stays inside the image.
    pub fn can_fsck(&self) -> (ok: bool)
        ensures
            ok == (self@.in_range() || self@.can_check()),
    {
        proof {
            if self@.in_range() {
                self@.lemma_can_check();
            }
        }
        if !self.is_shaped() {
            return false;
        }
        let mut seen: Vec<bool> = vec![false; INODE_COUNT];
        proof {
            assert(seen@ =~= no_walk().seen);
            lemma_unseen_bound(seen@, INODE_COUNT as int);
        }
        if !self.walk_stays(0, &mut seen, Ghost(no_walk()), Ghost((INODE_COUNT + 1) as nat)) {
            return false;
        }
        let mut i: usize = 0;
        while i < INODE_COUNT
            invariant
                i <= INODE_COUNT,
                self@.shaped(),
                forall|x: int|
                    0 <= x < i && (#[trigger] self@.inodes[x]).allocated
                        ==> self@.pointers_readable(self@.inodes[x]),
            decreases INODE_COUNT - i,
        {
            let inode: &Inode = &self.image.inodes[i];
            assert(inode@ == self@.inodes[i as int]);
            if inode.allocated && !self.pointers_stay(inode) {
                return false;
            }
            i = i + 1;
        }
        true
    }
}

impl ImageView {
    /// Names that lead nowhere on the way stay inside the image if the way up to
    /// there does.
    pub proof fn lemma_resolve_stuck(self, all: Seq<Seq<char>>, n: int)
        requires
            0 <= n <= all.len(),
            self.resolve_readable(all.take(n)),
            self.resolve(all.take(n)) is Err,
        ensures
            self.resolve_readable(all),
        decreases all.len() - n,
    {
        if n < all.len() {
            assert(all.take(n + 1).drop_last() =~= all.take(n));
            self.lemma_resolve_stuck(all, n + 1);
        } else {
            assert(all.take(n) =~= all);
        }
    }

    /// Adding an entry to the directory `node`, where entries fit blocks, stays
    /// inside the image.
    pub open spec fn node_add_readable(self, node: InodeView) -> bool {
        &&& self.search_readable(node, unused())
        &&& self.search(node, self.covered(node), unused()) == Ok::<
            Option<(u32, int)>,
            ErrorView,
        >(None) ==> self.block_readable(node, self.covered(node))
    }

    /// A search depends on the blocks alone.
    proof fn lemma_same_blocks_search(
        self,
        img: ImageView,
        node: InodeView,
        k: int,
        wanted: spec_fn(EntryView) -> bool,
    )
        requires
            img.sb == self.sb,
            img.blocks == self.blocks,
        ensures
            img.search(node, k, wanted) == self.search(node, k, wanted),
        decreases k,
    {
        if k > 0 {
            self.lemma_same_blocks_search(img, node, k - 1, wanted);
        }
    }

    /// Whether adding an entry stays inside the image depends on the blocks
    /// alone.
    proof fn lemma_same_blocks_add(self, img: ImageView, node: InodeView)
        requires
            img.sb == self.sb,
            img.blocks == self.blocks,
        ensures
            img.node_add_readable(node) == self.node_add_readable(node),
    {
        self.lemma_same_blocks_search(img, node, self.covered(node), unused());
        if self.search_readable(node, unused()) {
            assert forall|k: int|
                0 <= k < img.covered(node) && img.search(node, k, unused()) == Ok::<
                    Option<(u32, int)>,
                    ErrorView,
                >(None) implies #[trigger] img.block_readable(node, k) by {
                self.lemma_same_blocks_search(img, node, k, unused());
                assert(self.block_readable(node, k));
            }
        }
        if img.search_readable(node, unused()) {
            assert forall|k: int|
                0 <= k < self.covered(node) && self.search(node, k, unused()) == Ok::<
                    Option<(u32, int)>,
                    ErrorView,
                >(None) implies #[trigger] self.block_readable(node, k) by {
                self.lemma_same_blocks_search(img, node, k, unused());
                assert(img.block_readable(node, k));
            }
        }
    }
}

} // verus!
