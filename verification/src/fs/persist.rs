//! Saving and loading images.

use vstd::prelude::*;
use crate::block::{Image, Superblock, INODE_COUNT, MAGIC};
use crate::codec::{get_u16, get_u32, get_u64, push_u16, push_u32, push_u64, u32_bytes, u32_value};
use crate::error::{ErrorView, FsError, Result};
use crate::fs::Fs;
use crate::inode::{FileKind, Inode, InodeId, InodeView, DIRECT_POINTERS, NULL_BLOCK};
use crate::model::format::{
    bitmap_bytes, data_bytes, image_bytes, inode_bytes, lemma_read_blocks_err, lemma_read_image,
    lemma_read_table_err, packed_bits, read_bitmap, read_blocks, read_bytes, read_image, read_inode,
    read_superblock, read_table, superblock_bytes, table_bytes, unpacked, words_bytes,
};
use crate::model::image::ceil_div;

verus! {

/// The values of the inodes in `v`.
pub open spec fn inode_views(v: Seq<Inode>) -> Seq<InodeView> {
    Seq::new(v.len(), |i: int| v[i]@)
}

/// The contents of the blocks in `v`.
pub open spec fn block_views(v: Seq<Vec<u8>>) -> Seq<Seq<u8>> {
    Seq::new(v.len(), |b: int| v[b]@)
}

/// Appends `bytes` to `out`.
pub(crate) fn push_slice(out: &mut Vec<u8>, bytes: &[u8])
    ensures
        final(out)@ == old(out)@ + bytes@,
{
    let ghost start = out@;
    let mut i: usize = 0;
    assert(start + bytes@.take(0) =~= start);
    while i < bytes.len()
        invariant
            i <= bytes.len(),
            out@ == start + bytes@.take(i as int),
        decreases bytes.len() - i,
    {
        out.push(bytes[i]);
        i = i + 1;
        assert(start + bytes@.take(i as int) =~= (start + bytes@.take(i - 1)).push(
            bytes@[i - 1],
        ));
    }
    assert(bytes@.take(bytes@.len() as int) =~= bytes@);
}

/// Appends the bytes of an inode to `out`.
fn push_inode(out: &mut Vec<u8>, node: &Inode)
    ensures
        final(out)@ == old(out)@ + inode_bytes(node@),
{
    let ghost start = out@;
    out.push(node.kind.to_byte());
    out.push(
        if node.allocated {
            1
        } else {
            0
        },
    );
    push_u16(out, node.link_count);
    push_u64(out, node.size);
    let ghost head = out@;
    let ghost direct = node@.direct;
    let mut k: usize = 0;
    assert(words_bytes(direct.take(0)) =~= Seq::empty());
    assert(head + Seq::<u8>::empty() =~= head);
    while k < DIRECT_POINTERS
        invariant
            k <= DIRECT_POINTERS,
            direct == node.direct@,
            direct.len() == DIRECT_POINTERS,
            out@ == head + words_bytes(direct.take(k as int)),
        decreases DIRECT_POINTERS - k,
    {
        push_u32(out, node.direct[k]);
        proof {
            assert(direct.take(k + 1).drop_last() =~= direct.take(k as int));
            assert(direct.take(k + 1).last() == direct[k as int]);
            assert(head + (words_bytes(direct.take(k as int)) + u32_bytes(direct[k as int])) =~= (
            head + words_bytes(direct.take(k as int))) + u32_bytes(direct[k as int]));
        }
        k = k + 1;
    }
    push_u32(out, node.indirect);
    proof {
        assert(direct.take(DIRECT_POINTERS as int) =~= direct);
        assert(out@ =~= start + inode_bytes(node@));
    }
}

/// Packs the eight flags of `bits` from `from` on into a byte, LSB-first.
fn pack_bits(bits: &Vec<bool>, from: usize) -> (byte: u8)
    requires
        from < bits.len(),
    ensures
        byte == packed_bits(bits@, from as int, 8),
{
    let mut byte: u8 = 0;
    let mut count: u8 = 0;
    while count < 8
        invariant
            count <= 8,
            from < bits.len(),
            byte == packed_bits(bits@, from as int, count as nat),
        decreases 8 - count,
    {
        let ghost before = byte;
        if (count as usize) < bits.len() - from && bits[from + count as usize] {
            byte = byte | (1u8 << count);
        } else {
            assert(before | 0u8 == before) by (bit_vector);
        }
        count = count + 1;
    }
    byte
}

/// Takes the next `n` bytes of `reader`.
fn read_exact<'a>(reader: &mut &'a [u8], n: usize) -> (r: Result<&'a [u8]>)
    ensures
        (*final(reader))@ == read_bytes((*old(reader))@, n as int).1,
        match (r, read_bytes((*old(reader))@, n as int).0) {
            (Ok(bytes), Ok(s)) => bytes@ == s,
            (Err(e), Err(s)) => e@ == s,
            _ => false,
        },
{
    let all: &'a [u8] = *reader;
    if all.len() < n {
        *reader = &all[all.len()..all.len()];
        assert((*reader)@ =~= Seq::empty());
        return Err(FsError::Io("failed to fill whole buffer".to_string()));
    }
    *reader = &all[n..all.len()];
    Ok(&all[0..n])
}

/// Takes the next four bytes of `reader` as an integer.
fn read_u32(reader: &mut &[u8]) -> (r: Result<u32>)
    ensures
        (*final(reader))@ == read_bytes((*old(reader))@, 4).1,
        match (r, read_bytes((*old(reader))@, 4).0) {
            (Ok(x), Ok(s)) => x == u32_value(s),
            (Err(e), Err(s)) => e@ == s,
            _ => false,
        },
{
    match read_exact(reader, 4) {
        Ok(bytes) => {
            assert(bytes@.subrange(0, 4) =~= bytes@);
            Ok(get_u32(bytes, 0))
        },
        Err(e) => Err(e),
    }
}

/// Takes a superblock from `reader`.
fn load_superblock(reader: &mut &[u8]) -> (r: Result<Superblock>)
    ensures
        (*final(reader))@ == read_superblock((*old(reader))@).1,
        match (r, read_superblock((*old(reader))@).0) {
            (Ok(sb), Ok(s)) => sb == s,
            (Err(e), Err(s)) => e@ == s,
            _ => false,
        },
{
    let ghost s = (*reader)@;
    let magic: &[u8] = match read_exact(reader, 8) {
        Ok(bytes) => bytes,
        Err(e) => {
            return Err(e);
        },
    };
    let mut i: usize = 0;
    while i < 8
        invariant
            i <= 8,
            magic@.len() == 8,
            magic@ == s.take(8),
            s.len() >= 8,
            (*reader)@ == s.skip(8),
            s == (*old(reader))@,
            forall|j: int| 0 <= j < i ==> magic@[j] == MAGIC@[j],
        decreases 8 - i,
    {
        if magic[i] != MAGIC[i] {
            assert(s.take(8)[i as int] != MAGIC@[i as int]);
            return Err(FsError::Corrupt("bad magic".to_string()));
        }
        i = i + 1;
    }
    assert(magic@ =~= MAGIC@);
    let block_size: u32 = match read_u32(reader) {
        Ok(x) => x,
        Err(e) => {
            return Err(e);
        },
    };
    assert(s.skip(8).take(4) =~= s.subrange(8, 12));
    assert(s.skip(8).skip(4) =~= s.skip(12));
    let num_blocks: u32 = match read_u32(reader) {
        Ok(x) => x,
        Err(e) => {
            return Err(e);
        },
    };
    assert(s.skip(12).take(4) =~= s.subrange(12, 16));
    assert(s.skip(12).skip(4) =~= s.skip(16));
    let num_inodes: u32 = match read_u32(reader) {
        Ok(x) => x,
        Err(e) => {
            return Err(e);
        },
    };
    assert(s.skip(16).take(4) =~= s.subrange(16, 20));
    assert(s.skip(16).skip(4) =~= s.skip(20));
    let root_inode: u32 = match read_u32(reader) {
        Ok(x) => x,
        Err(e) => {
            return Err(e);
        },
    };
    assert(s.skip(20).take(4) =~= s.subrange(20, 24));
    assert(s.skip(20).skip(4) =~= s.skip(24));
    if num_inodes as usize != INODE_COUNT {
        return Err(FsError::Corrupt("inode count mismatch".to_string()));
    }
    Ok(Superblock { block_size, num_blocks, num_inodes, root_inode })
}

/// Takes the inode at position `id` of the table from `reader`.
fn load_inode(reader: &mut &[u8], id: InodeId) -> (r: Result<Inode>)
    ensures
        (*final(reader))@ == read_inode((*old(reader))@, id).1,
        match (r, read_inode((*old(reader))@, id).0) {
            (Ok(node), Ok(s)) => node@ == s,
            (Err(e), Err(s)) => e@ == s,
            _ => false,
        },
{
    let ghost s = (*reader)@;
    let head: &[u8] = match read_exact(reader, 2) {
        Ok(bytes) => bytes,
        Err(e) => {
            return Err(e);
        },
    };
    assert(s.take(2)[0] == s[0] && s.take(2)[1] == s[1]);
    let kind: FileKind = match FileKind::from_byte(head[0]) {
        Some(kind) => kind,
        None => {
            return Err(FsError::Corrupt("bad file kind".to_string()));
        },
    };
    let tail: &[u8] = match read_exact(reader, 62) {
        Ok(bytes) => bytes,
        Err(e) => {
            return Err(e);
        },
    };
    assert(s.skip(2).skip(62) =~= s.skip(64));
    let mut direct: [u32; DIRECT_POINTERS] = [NULL_BLOCK;DIRECT_POINTERS];
    let mut k: usize = 0;
    while k < DIRECT_POINTERS
        invariant
            k <= DIRECT_POINTERS,
            s.len() >= 64,
            tail@.len() == 62,
            tail@ == s.skip(2).take(62),
            forall|j: int|
                0 <= j < k ==> #[trigger] direct@[j] == u32_value(
                    s.subrange(12 + 4 * j, 16 + 4 * j),
                ),
        decreases DIRECT_POINTERS - k,
    {
        direct[k] = get_u32(tail, 10 + 4 * k);
        assert(tail@.subrange(10 + 4 * k, 14 + 4 * k) =~= s.subrange(12 + 4 * k, 16 + 4 * k));
        k = k + 1;
    }
    let node = Inode {
        id,
        kind,
        size: get_u64(tail, 2),
        direct,
        indirect: get_u32(tail, 58),
        link_count: get_u16(tail, 0),
        allocated: head[1] != 0,
    };
    proof {
        assert(tail@.subrange(2, 10) =~= s.subrange(4, 12));
        assert(tail@.subrange(58, 62) =~= s.subrange(60, 64));
        assert(tail@.subrange(0, 2) =~= s.subrange(2, 4));
        assert(node@.direct =~= read_inode(s, id).0->Ok_0.direct);
    }
    Ok(node)
}

/// Takes an inode table from `reader`.
fn load_table(reader: &mut &[u8]) -> (r: Result<Vec<Inode>>)
    ensures
        (*final(reader))@ == read_table((*old(reader))@, INODE_COUNT as nat).1,
        match (r, read_table((*old(reader))@, INODE_COUNT as nat).0) {
            (Ok(nodes), Ok(s)) => inode_views(nodes@) == s,
            (Err(e), Err(s)) => e@ == s,
            _ => false,
        },
{
    let ghost s = (*reader)@;
    let mut nodes: Vec<Inode> = Vec::with_capacity(INODE_COUNT);
    let mut i: usize = 0;
    assert(inode_views(nodes@) =~= Seq::empty());
    while i < INODE_COUNT
        invariant
            i <= INODE_COUNT,
            s == (*old(reader))@,
            read_table(s, i as nat).0 == Ok::<Seq<InodeView>, ErrorView>(inode_views(nodes@)),
            (*reader)@ == read_table(s, i as nat).1,
        decreases INODE_COUNT - i,
    {
        let ghost before = inode_views(nodes@);
        match load_inode(reader, i as InodeId) {
            Ok(node) => {
                nodes.push(node);
                assert(inode_views(nodes@) =~= before.push(node@));
            },
            Err(e) => {
                proof {
                    lemma_read_table_err(s, (i + 1) as nat, INODE_COUNT as nat);
                }
                return Err(e);
            },
        }
        i = i + 1;
    }
    Ok(nodes)
}

/// Takes a bitmap of `n` flags from `reader`.
fn load_bitmap(reader: &mut &[u8], n: u32) -> (r: Result<Vec<bool>>)
    ensures
        (*final(reader))@ == read_bitmap((*old(reader))@, n as nat).1,
        match (r, read_bitmap((*old(reader))@, n as nat).0) {
            (Ok(bits), Ok(s)) => bits@ == s,
            (Err(e), Err(s)) => e@ == s,
            _ => false,
        },
{
    let count: usize = ((n as u64 + 7) / 8) as usize;
    let packed: &[u8] = match read_exact(reader, count) {
        Ok(bytes) => bytes,
        Err(e) => {
            return Err(e);
        },
    };
    let mut bits: Vec<bool> = Vec::new();
    let mut i: usize = 0;
    while i < n as usize
        invariant
            i <= n,
            count == ceil_div(n as int, 8),
            packed@.len() == count,
            bits@.len() == i,
            forall|j: int| 0 <= j < i ==> #[trigger] bits@[j] == unpacked(packed@, n as nat)[j],
        decreases n - i,
    {
        let c: u8 = (i % 8) as u8;
        bits.push((packed[i / 8] >> c) & 1u8 != 0);
        i = i + 1;
    }
    assert(bits@ =~= unpacked(packed@, n as nat));
    Ok(bits)
}

/// Takes `n` blocks of `bs` bytes from `reader`.
fn load_blocks(reader: &mut &[u8], n: u32, bs: u32) -> (r: Result<Vec<Vec<u8>>>)
    ensures
        (*final(reader))@ == read_blocks((*old(reader))@, n as nat, bs as int).1,
        match (r, read_blocks((*old(reader))@, n as nat, bs as int).0) {
            (Ok(blocks), Ok(s)) => block_views(blocks@) == s,
            (Err(e), Err(s)) => e@ == s,
            _ => false,
        },
{
    let ghost s = (*reader)@;
    let mut blocks: Vec<Vec<u8>> = Vec::new();
    let mut i: u32 = 0;
    assert(block_views(blocks@) =~= Seq::empty());
    while i < n
        invariant
            i <= n,
            s == (*old(reader))@,
            read_blocks(s, i as nat, bs as int).0 == Ok::<Seq<Seq<u8>>, ErrorView>(
                block_views(blocks@),
            ),
            (*reader)@ == read_blocks(s, i as nat, bs as int).1,
        decreases n - i,
    {
        let ghost before = block_views(blocks@);
        match read_exact(reader, bs as usize) {
            Ok(bytes) => {
                let mut block: Vec<u8> = Vec::new();
                push_slice(&mut block, bytes);
                assert(block@ =~= bytes@);
                blocks.push(block);
                assert(block_views(blocks@) =~= before.push(bytes@));
            },
            Err(e) => {
                proof {
                    lemma_read_blocks_err(s, (i + 1) as nat, n as nat, bs as int);
                }
                return Err(e);
            },
        }
        i = i + 1;
    }
    Ok(blocks)
}

impl Fs {
    /// Serialises the image to `writer` in the gridfs binary format.
    pub fn dump_image(&self, writer: &mut Vec<u8>) -> (r: Result<()>)
        ensures
            r is Ok,
            final(writer)@ == old(writer)@ + image_bytes(self@),
    {
        let ghost start = writer@;
        let sb: &Superblock = &self.image.sb;
        push_slice(writer, &MAGIC);
        push_u32(writer, sb.block_size);
        push_u32(writer, sb.num_blocks);
        push_u32(writer, sb.num_inodes);
        push_u32(writer, sb.root_inode);
        let ghost part1 = writer@;
        assert(part1 =~= start + superblock_bytes(self@.sb));
        let ghost nodes = self@.inodes;
        let mut i: usize = 0;
        assert(part1 + table_bytes(nodes.take(0)) =~= part1);
        while i < self.image.inodes.len()
            invariant
                nodes == self@.inodes,
                nodes.len() == self.image.inodes@.len(),
                i <= nodes.len(),
                writer@ == part1 + table_bytes(nodes.take(i as int)),
            decreases nodes.len() - i,
        {
            let ghost before = writer@;
            push_inode(writer, &self.image.inodes[i]);
            proof {
                assert(nodes[i as int] == self.image.inodes@[i as int]@);
                assert(nodes.take(i + 1).drop_last() =~= nodes.take(i as int));
                assert(nodes.take(i + 1).last() == nodes[i as int]);
                assert(writer@ =~= part1 + table_bytes(nodes.take(i + 1)));
            }
            i = i + 1;
        }
        let ghost part2 = writer@;
        assert(nodes.take(nodes.len() as int) =~= nodes);
        let ghost bits = self@.bitmap;
        let mut from: usize = 0;
        assert(part2 + bitmap_bytes(bits).take(0) =~= part2);
        while from < self.image.bitmap.len()
            invariant
                bits == self.image.bitmap@,
                from < bits.len() ==> from % 8 == 0,
                writer@ == part2 + bitmap_bytes(bits).take(
                    if from < bits.len() {
                        from as int / 8
                    } else {
                        bitmap_bytes(bits).len() as int
                    },
                ),
            decreases bits.len() - from,
        {
            let ghost j = from as int / 8;
            let byte: u8 = pack_bits(&self.image.bitmap, from);
            writer.push(byte);
            proof {
                assert(bitmap_bytes(bits)[j] == byte);
                assert(part2 + bitmap_bytes(bits).take(j + 1) =~= (part2 + bitmap_bytes(bits).take(
                    j,
                )).push(byte));
            }
            if self.image.bitmap.len() - from <= 8 {
                from = self.image.bitmap.len();
            } else {
                from = from + 8;
            }
        }
        let ghost part3 = writer@;
        assert(bitmap_bytes(bits).take(bitmap_bytes(bits).len() as int) =~= bitmap_bytes(bits));
        let ghost blocks = self@.blocks;
        let mut b: usize = 0;
        assert(part3 + data_bytes(blocks.take(0)) =~= part3);
        while b < self.image.blocks.len()
            invariant
                blocks == self@.blocks,
                blocks.len() == self.image.blocks@.len(),
                b <= blocks.len(),
                writer@ == part3 + data_bytes(blocks.take(b as int)),
            decreases blocks.len() - b,
        {
            push_slice(writer, self.image.blocks[b].as_slice());
            proof {
                assert(blocks[b as int] == self.image.blocks@[b as int]@);
                assert(blocks.take(b + 1).drop_last() =~= blocks.take(b as int));
                assert(blocks.take(b + 1).last() == blocks[b as int]);
                assert(writer@ =~= part3 + data_bytes(blocks.take(b + 1)));
            }
            b = b + 1;
        }
        assert(blocks.take(blocks.len() as int) =~= blocks);
        assert(writer@ =~= start + image_bytes(self@));
        Ok(())
    }

    /// Loads an image previously produced by [`Fs::dump_image`], and leaves
    /// `reader` behind it.
    pub fn load_image(reader: &mut &[u8]) -> (r: Result<Fs>)
        ensures
            (*final(reader))@ == read_image((*old(reader))@).1,
            match (r, read_image((*old(reader))@).0) {
                (Ok(fs), Ok(s)) => fs@ == s,
                (Err(e), Err(s)) => e@ == s,
                _ => false,
            },
            r matches Ok(fs) ==> fs@.storable(),
    {
        let sb: Superblock = match load_superblock(reader) {
            Ok(sb) => sb,
            Err(e) => {
                return Err(e);
            },
        };
        let inodes: Vec<Inode> = match load_table(reader) {
            Ok(inodes) => inodes,
            Err(e) => {
                return Err(e);
            },
        };
        let bitmap: Vec<bool> = match load_bitmap(reader, sb.num_blocks) {
            Ok(bitmap) => bitmap,
            Err(e) => {
                return Err(e);
            },
        };
        let blocks: Vec<Vec<u8>> = match load_blocks(reader, sb.num_blocks, sb.block_size) {
            Ok(blocks) => blocks,
            Err(e) => {
                return Err(e);
            },
        };
        let fs = Fs { image: Image { sb, inodes, bitmap, blocks } };
        proof {
            let s = read_image((*old(reader))@).0->Ok_0;
            assert(fs@.inodes =~= s.inodes);
            assert(fs@.blocks =~= s.blocks);
            lemma_read_image((*old(reader))@);
        }
        Ok(fs)
    }
}

} // verus!
