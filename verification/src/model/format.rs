//! The serialized form of an image.

use vstd::prelude::*;
use crate::block::{Superblock, INODE_COUNT, INODE_SIZE, MAGIC};
use crate::codec::{
    lemma_u16_roundtrip, lemma_u32_roundtrip, lemma_u64_roundtrip, u16_bytes, u16_value, u32_bytes,
    u32_value, u64_bytes, u64_value,
};
use crate::error::{ErrorView, Outcome};
use crate::inode::{kind_byte, kind_of_byte, InodeView, DIRECT_POINTERS};
use crate::model::image::{ceil_div, ImageView};

verus! {

/// The error for input that ends too early.
pub open spec fn end_of_input() -> ErrorView {
    ErrorView::Io("failed to fill whole buffer"@)
}

/// What reading gives, and the input that is left.
pub type Parsed<T> = (Outcome<T>, Seq<u8>);

/// The bytes of a sequence of words.
pub open spec fn words_bytes(s: Seq<u32>) -> Seq<u8>
    decreases s.len(),
{
    if s.len() == 0 {
        Seq::empty()
    } else {
        words_bytes(s.drop_last()) + u32_bytes(s.last())
    }
}

/// The bytes of an inode. Its id is not among them: the position in the table
/// tells it.
pub open spec fn inode_bytes(node: InodeView) -> Seq<u8> {
    seq![
        kind_byte(node.kind),
        if node.allocated {
            1u8
        } else {
            0u8
        },
    ] + u16_bytes(node.link_count) + u64_bytes(node.size) + words_bytes(node.direct) + u32_bytes(
        node.indirect,
    )
}

/// The bytes of an inode table.
pub open spec fn table_bytes(nodes: Seq<InodeView>) -> Seq<u8>
    decreases nodes.len(),
{
    if nodes.len() == 0 {
        Seq::empty()
    } else {
        table_bytes(nodes.drop_last()) + inode_bytes(nodes.last())
    }
}

/// The byte whose low `n` bits, from the lowest on, are the flags of `bits`
/// from `from` on. Flags past the end are clear.
pub open spec fn packed_bits(bits: Seq<bool>, from: int, n: nat) -> u8
    decreases n,
{
    if n == 0 {
        0u8
    } else {
        packed_bits(bits, from, (n - 1) as nat) | if from + n - 1 < bits.len() && bits[from + n
            - 1] {
            1u8 << ((n - 1) as u8)
        } else {
            0u8
        }
    }
}

/// The bytes of a bitmap, eight flags to a byte.
pub open spec fn bitmap_bytes(bits: Seq<bool>) -> Seq<u8> {
    Seq::new(ceil_div(bits.len() as int, 8) as nat, |j: int| packed_bits(bits, 8 * j, 8))
}

/// The bytes of the data area.
pub open spec fn data_bytes(blocks: Seq<Seq<u8>>) -> Seq<u8>
    decreases blocks.len(),
{
    if blocks.len() == 0 {
        Seq::empty()
    } else {
        data_bytes(blocks.drop_last()) + blocks.last()
    }
}

/// The bytes of a superblock.
pub open spec fn superblock_bytes(sb: Superblock) -> Seq<u8> {
    MAGIC@ + u32_bytes(sb.block_size) + u32_bytes(sb.num_blocks) + u32_bytes(sb.num_inodes)
        + u32_bytes(sb.root_inode)
}

/// The serialized form of an image.
pub open spec fn image_bytes(img: ImageView) -> Seq<u8> {
    superblock_bytes(img.sb) + table_bytes(img.inodes) + bitmap_bytes(img.bitmap) + data_bytes(
        img.blocks,
    )
}

/// Reads `n` bytes.
pub open spec fn read_bytes(s: Seq<u8>, n: int) -> Parsed<Seq<u8>> {
    if s.len() < n {
        (Err(end_of_input()), Seq::empty())
    } else {
        (Ok(s.take(n)), s.skip(n))
    }
}

/// Reads a superblock.
pub open spec fn read_superblock(s: Seq<u8>) -> Parsed<Superblock> {
    if s.len() < 8 {
        (Err(end_of_input()), Seq::empty())
    } else if s.take(8) != MAGIC@ {
        (Err(ErrorView::Corrupt("bad magic"@)), s.skip(8))
    } else if s.len() < 24 {
        (Err(end_of_input()), Seq::empty())
    } else if u32_value(s.subrange(16, 20)) != INODE_COUNT {
        (Err(ErrorView::Corrupt("inode count mismatch"@)), s.skip(24))
    } else {
        (
            Ok(
                Superblock {
                    block_size: u32_value(s.subrange(8, 12)),
                    num_blocks: u32_value(s.subrange(12, 16)),
                    num_inodes: u32_value(s.subrange(16, 20)),
                    root_inode: u32_value(s.subrange(20, 24)),
                },
            ),
            s.skip(24),
        )
    }
}

/// Reads the inode at position `id` of a table.
pub open spec fn read_inode(s: Seq<u8>, id: u32) -> Parsed<InodeView> {
    if s.len() < 2 {
        (Err(end_of_input()), Seq::empty())
    } else {
        match kind_of_byte(s[0]) {
            None => (Err(ErrorView::Corrupt("bad file kind"@)), s.skip(2)),
            Some(kind) => if s.len() < INODE_SIZE {
                (Err(end_of_input()), Seq::empty())
            } else {
                (
                    Ok(
                        InodeView {
                            id,
                            kind,
                            size: u64_value(s.subrange(4, 12)),
                            direct: Seq::new(
                                DIRECT_POINTERS as nat,
                                |k: int| u32_value(s.subrange(12 + 4 * k, 16 + 4 * k)),
                            ),
                            indirect: u32_value(s.subrange(60, 64)),
                            link_count: u16_value(s.subrange(2, 4)),
                            allocated: s[1] != 0,
                        },
                    ),
                    s.skip(INODE_SIZE as int),
                )
            },
        }
    }
}

/// Reads `n` inodes.
pub open spec fn read_table(s: Seq<u8>, n: nat) -> Parsed<Seq<InodeView>>
    decreases n,
{
    if n == 0 {
        (Ok(Seq::empty()), s)
    } else {
        match read_table(s, (n - 1) as nat) {
            (Ok(nodes), left) => match read_inode(left, (n - 1) as u32) {
                (Ok(node), left2) => (Ok(nodes.push(node)), left2),
                (Err(e), left2) => (Err(e), left2),
            },
            (Err(e), left) => (Err(e), left),
        }
    }
}

/// Bit `c` of a byte, counted from the lowest.
pub open spec fn bit(byte: u8, c: u8) -> bool {
    (byte >> c) & 1u8 != 0
}

/// The first `n` flags of a packed bitmap.
pub open spec fn unpacked(packed: Seq<u8>, n: nat) -> Seq<bool> {
    Seq::new(n, |i: int| bit(packed[i / 8], (i % 8) as u8))
}

/// Reads a bitmap of `n` flags.
pub open spec fn read_bitmap(s: Seq<u8>, n: nat) -> Parsed<Seq<bool>> {
    match read_bytes(s, ceil_div(n as int, 8)) {
        (Ok(packed), left) => (Ok(unpacked(packed, n)), left),
        (Err(e), left) => (Err(e), left),
    }
}

/// Reads `n` blocks of `bs` bytes.
pub open spec fn read_blocks(s: Seq<u8>, n: nat, bs: int) -> Parsed<Seq<Seq<u8>>>
    decreases n,
{
    if n == 0 {
        (Ok(Seq::empty()), s)
    } else {
        match read_blocks(s, (n - 1) as nat, bs) {
            (Ok(blocks), left) => match read_bytes(left, bs) {
                (Ok(block), left2) => (Ok(blocks.push(block)), left2),
                (Err(e), left2) => (Err(e), left2),
            },
            (Err(e), left) => (Err(e), left),
        }
    }
}

/// Reads an image.
pub open spec fn read_image(s: Seq<u8>) -> Parsed<ImageView> {
    match read_superblock(s) {
        (Ok(sb), s1) => match read_table(s1, INODE_COUNT as nat) {
            (Ok(inodes), s2) => match read_bitmap(s2, sb.num_blocks as nat) {
                (Ok(bitmap), s3) => match read_blocks(
                    s3,
                    sb.num_blocks as nat,
                    sb.block_size as int,
                ) {
                    (Ok(blocks), s4) => (Ok(ImageView { sb, inodes, bitmap, blocks }), s4),
                    (Err(e), s4) => (Err(e), s4),
                },
                (Err(e), s3) => (Err(e), s3),
            },
            (Err(e), s2) => (Err(e), s2),
        },
        (Err(e), s1) => (Err(e), s1),
    }
}

impl ImageView {
    /// The tables have the sizes that the superblock gives, and the id of an
    /// inode is its position.
    pub open spec fn storable(self) -> bool {
        &&& self.sb.num_inodes == INODE_COUNT
        &&& self.inodes.len() == INODE_COUNT
        &&& self.bitmap.len() == self.sb.num_blocks
        &&& self.blocks.len() == self.sb.num_blocks
        &&& forall|b: int|
            0 <= b < self.blocks.len() ==> (#[trigger] self.blocks[b]).len() == self.bs()
        &&& forall|i: int|
            0 <= i < self.inodes.len() ==> {
                &&& (#[trigger] self.inodes[i]).id == i
                &&& self.inodes[i].direct.len() == DIRECT_POINTERS
            }
    }
}

/// Once an inode cannot be read, no longer table can be read.
pub proof fn lemma_read_table_err(s: Seq<u8>, m: nat, n: nat)
    requires
        m <= n,
        read_table(s, m).0 is Err,
    ensures
        read_table(s, n) == read_table(s, m),
    decreases n - m,
{
    if m < n {
        lemma_read_table_err(s, m, (n - 1) as nat);
    }
}

/// Once a block cannot be read, no more blocks can be read.
pub proof fn lemma_read_blocks_err(s: Seq<u8>, m: nat, n: nat, bs: int)
    requires
        m <= n,
        read_blocks(s, m, bs).0 is Err,
    ensures
        read_blocks(s, n, bs) == read_blocks(s, m, bs),
    decreases n - m,
{
    if m < n {
        lemma_read_blocks_err(s, m, (n - 1) as nat, bs);
    }
}

/// The bytes of words: their number, and where each word stands.
proof fn lemma_words_bytes(s: Seq<u32>)
    ensures
        words_bytes(s).len() == 4 * s.len(),
        forall|k: int|
            0 <= k < s.len() ==> #[trigger] words_bytes(s).subrange(4 * k, 4 * k + 4)
                == u32_bytes(s[k]),
    decreases s.len(),
{
    if s.len() > 0 {
        lemma_words_bytes(s.drop_last());
        let head = words_bytes(s.drop_last());
        let all = words_bytes(s);
        assert forall|k: int| 0 <= k < s.len() implies #[trigger] all.subrange(4 * k, 4 * k + 4)
            == u32_bytes(s[k]) by {
            if k < s.len() - 1 {
                assert(all.subrange(4 * k, 4 * k + 4) =~= head.subrange(4 * k, 4 * k + 4));
                assert(s.drop_last()[k] == s[k]);
            } else {
                assert(all.subrange(4 * k, 4 * k + 4) =~= u32_bytes(s.last()));
            }
        }
    }
}

/// Reading an inode gives back what was written.
pub proof fn lemma_inode_roundtrip(node: InodeView, rest: Seq<u8>)
    requires
        node.direct.len() == DIRECT_POINTERS,
    ensures
        inode_bytes(node).len() == INODE_SIZE,
        read_inode(inode_bytes(node) + rest, node.id) == (Ok::<InodeView, ErrorView>(node), rest),
{
    let direct = words_bytes(node.direct);
    let s = inode_bytes(node) + rest;
    lemma_words_bytes(node.direct);
    lemma_u16_roundtrip(node.link_count);
    lemma_u64_roundtrip(node.size);
    lemma_u32_roundtrip(node.indirect);
    assert(s[0] == kind_byte(node.kind));
    assert(s.subrange(2, 4) =~= u16_bytes(node.link_count));
    assert(s.subrange(4, 12) =~= u64_bytes(node.size));
    assert(s.subrange(60, 64) =~= u32_bytes(node.indirect));
    assert forall|k: int| 0 <= k < DIRECT_POINTERS implies #[trigger] u32_value(
        s.subrange(12 + 4 * k, 16 + 4 * k),
    ) == node.direct[k] by {
        lemma_u32_roundtrip(node.direct[k]);
        assert(direct.subrange(4 * k, 4 * k + 4) == u32_bytes(node.direct[k]));
        assert(s.subrange(12 + 4 * k, 16 + 4 * k) =~= direct.subrange(4 * k, 4 * k + 4));
    }
    assert(s.skip(INODE_SIZE as int) =~= rest);
    let read = read_inode(s, node.id).0->Ok_0;
    assert(read.direct =~= node.direct);
}

/// Reading an inode table gives back what was written.
pub proof fn lemma_table_roundtrip(nodes: Seq<InodeView>, rest: Seq<u8>)
    requires
        nodes.len() <= INODE_COUNT,
        forall|i: int|
            0 <= i < nodes.len() ==> {
                &&& (#[trigger] nodes[i]).id == i
                &&& nodes[i].direct.len() == DIRECT_POINTERS
            },
    ensures
        table_bytes(nodes).len() == INODE_SIZE * nodes.len(),
        read_table(table_bytes(nodes) + rest, nodes.len()) == (
            Ok::<Seq<InodeView>, ErrorView>(nodes),
            rest,
        ),
    decreases nodes.len(),
{
    let s = table_bytes(nodes) + rest;
    if nodes.len() == 0 {
        assert(s =~= rest);
        assert(nodes =~= Seq::empty());
    } else {
        let last = inode_bytes(nodes.last());
        lemma_table_roundtrip(nodes.drop_last(), last + rest);
        lemma_inode_roundtrip(nodes.last(), rest);
        assert(s =~= table_bytes(nodes.drop_last()) + (last + rest));
        assert(nodes.drop_last().push(nodes.last()) =~= nodes);
    }
}

/// A bit of a packed byte is the flag that was packed, or clear past the end.
pub proof fn lemma_packed_bit(bits: Seq<bool>, from: int, c: u8)
    requires
        c < 8,
        0 <= from,
    ensures
        bit(packed_bits(bits, from, 8), c) == (from + c < bits.len() && bits[from + c]),
{
    reveal_with_fuel(packed_bits, 9);
    let b0: bool = from < bits.len() && bits[from];
    let b1: bool = from + 1 < bits.len() && bits[from + 1];
    let b2: bool = from + 2 < bits.len() && bits[from + 2];
    let b3: bool = from + 3 < bits.len() && bits[from + 3];
    let b4: bool = from + 4 < bits.len() && bits[from + 4];
    let b5: bool = from + 5 < bits.len() && bits[from + 5];
    let b6: bool = from + 6 < bits.len() && bits[from + 6];
    let b7: bool = from + 7 < bits.len() && bits[from + 7];
    let f0: u8 = if b0 { 1u8 << 0u8 } else { 0u8 };
    let f1: u8 = if b1 { 1u8 << 1u8 } else { 0u8 };
    let f2: u8 = if b2 { 1u8 << 2u8 } else { 0u8 };
    let f3: u8 = if b3 { 1u8 << 3u8 } else { 0u8 };
    let f4: u8 = if b4 { 1u8 << 4u8 } else { 0u8 };
    let f5: u8 = if b5 { 1u8 << 5u8 } else { 0u8 };
    let f6: u8 = if b6 { 1u8 << 6u8 } else { 0u8 };
    let f7: u8 = if b7 { 1u8 << 7u8 } else { 0u8 };
    let p: u8 = 0u8 | f0 | f1 | f2 | f3 | f4 | f5 | f6 | f7;
    assert(p == packed_bits(bits, from, 8));
    assert(((p >> c) & 1u8 != 0) == (if c == 0 { b0 } else if c == 1 { b1 } else if c == 2 {
        b2
    } else if c == 3 { b3 } else if c == 4 { b4 } else if c == 5 { b5 } else if c == 6 {
        b6
    } else { b7 })) by (bit_vector)
        requires
            c < 8,
            p == 0u8 | f0 | f1 | f2 | f3 | f4 | f5 | f6 | f7,
            f0 == if b0 { 1u8 << 0u8 } else { 0u8 },
            f1 == if b1 { 1u8 << 1u8 } else { 0u8 },
            f2 == if b2 { 1u8 << 2u8 } else { 0u8 },
            f3 == if b3 { 1u8 << 3u8 } else { 0u8 },
            f4 == if b4 { 1u8 << 4u8 } else { 0u8 },
            f5 == if b5 { 1u8 << 5u8 } else { 0u8 },
            f6 == if b6 { 1u8 << 6u8 } else { 0u8 },
            f7 == if b7 { 1u8 << 7u8 } else { 0u8 },
    ;
}

/// Reading a bitmap gives back what was written.
proof fn lemma_bitmap_roundtrip(bits: Seq<bool>, rest: Seq<u8>)
    ensures
        read_bitmap(bitmap_bytes(bits) + rest, bits.len()) == (
            Ok::<Seq<bool>, ErrorView>(bits),
            rest,
        ),
{
    let packed = bitmap_bytes(bits);
    let s = packed + rest;
    let n: int = ceil_div(bits.len() as int, 8);
    assert(s.take(n) =~= packed);
    assert(s.skip(n) =~= rest);
    assert forall|i: int| 0 <= i < bits.len() implies #[trigger] unpacked(packed, bits.len())[i]
        == bits[i] by {
        lemma_packed_bit(bits, 8 * (i / 8), (i % 8) as u8);
    }
    assert(unpacked(packed, bits.len()) =~= bits);
}

/// Reading the data area gives back what was written.
proof fn lemma_data_roundtrip(blocks: Seq<Seq<u8>>, bs: int, rest: Seq<u8>)
    requires
        forall|b: int| 0 <= b < blocks.len() ==> (#[trigger] blocks[b]).len() == bs,
    ensures
        read_blocks(data_bytes(blocks) + rest, blocks.len(), bs) == (
            Ok::<Seq<Seq<u8>>, ErrorView>(blocks),
            rest,
        ),
        data_bytes(blocks).len() == blocks.len() * bs,
    decreases blocks.len(),
{
    let s = data_bytes(blocks) + rest;
    if blocks.len() == 0 {
        assert(s =~= rest);
        assert(blocks =~= Seq::empty());
    } else {
        let last = blocks.last();
        lemma_data_roundtrip(blocks.drop_last(), bs, last + rest);
        assert(s =~= data_bytes(blocks.drop_last()) + (last + rest));
        assert(blocks.len() * bs == (blocks.len() - 1) * bs + bs) by (nonlinear_arith);
        assert((last + rest).take(bs) =~= last);
        assert((last + rest).skip(bs) =~= rest);
        assert(blocks.drop_last().push(last) =~= blocks);
    }
}

/// Loading an image gives back the image that was dumped, and leaves what
/// stands behind it.
pub proof fn law_dump_load(img: ImageView, rest: Seq<u8>)
    requires
        img.storable(),
    ensures
        read_image(image_bytes(img) + rest) == (Ok::<ImageView, ErrorView>(img), rest),
{
    let sb = img.sb;
    let s4 = rest;
    let s3 = data_bytes(img.blocks) + s4;
    let s2 = bitmap_bytes(img.bitmap) + s3;
    let s1 = table_bytes(img.inodes) + s2;
    let s = superblock_bytes(sb) + s1;
    assert(image_bytes(img) + rest =~= s);
    lemma_u32_roundtrip(sb.block_size);
    lemma_u32_roundtrip(sb.num_blocks);
    lemma_u32_roundtrip(sb.num_inodes);
    lemma_u32_roundtrip(sb.root_inode);
    assert(s.take(8) =~= MAGIC@);
    assert(s.subrange(8, 12) =~= u32_bytes(sb.block_size));
    assert(s.subrange(12, 16) =~= u32_bytes(sb.num_blocks));
    assert(s.subrange(16, 20) =~= u32_bytes(sb.num_inodes));
    assert(s.subrange(20, 24) =~= u32_bytes(sb.root_inode));
    assert(s.skip(24) =~= s1);
    lemma_table_roundtrip(img.inodes, s2);
    lemma_bitmap_roundtrip(img.bitmap, s3);
    lemma_data_roundtrip(img.blocks, img.bs(), s4);
}

/// The serialized form of an image has 24 bytes for the superblock, 64 for each
/// inode, one bit for each block in the bitmap, and the blocks.
pub proof fn law_image_size(img: ImageView)
    requires
        img.storable(),
    ensures
        image_bytes(img).len() == 24 + 64 * 256 + ceil_div(img.sb.num_blocks as int, 8)
            + img.sb.num_blocks * img.bs(),
{
    lemma_table_roundtrip(img.inodes, Seq::empty());
    lemma_data_roundtrip(img.blocks, img.bs(), Seq::empty());
}

/// The inodes that were read have their positions as ids, and all their direct
/// pointers.
proof fn lemma_read_table(s: Seq<u8>, n: nat)
    requires
        n <= INODE_COUNT,
    ensures
        read_table(s, n).0 matches Ok(nodes) ==> {
            &&& nodes.len() == n
            &&& forall|i: int|
                0 <= i < nodes.len() ==> {
                    &&& (#[trigger] nodes[i]).id == i
                    &&& nodes[i].direct.len() == DIRECT_POINTERS
                }
        },
    decreases n,
{
    if n > 0 {
        lemma_read_table(s, (n - 1) as nat);
    }
}

/// The blocks that were read have the block size.
proof fn lemma_read_blocks(s: Seq<u8>, n: nat, bs: int)
    requires
        bs >= 0,
    ensures
        read_blocks(s, n, bs).0 matches Ok(blocks) ==> {
            &&& blocks.len() == n
            &&& forall|b: int| 0 <= b < blocks.len() ==> (#[trigger] blocks[b]).len() == bs
        },
    decreases n,
{
    if n > 0 {
        lemma_read_blocks(s, (n - 1) as nat, bs);
    }
}

/// An image that was read has tables of the sizes that its superblock gives.
pub proof fn lemma_read_image(s: Seq<u8>)
    ensures
        read_image(s).0 matches Ok(img) ==> img.storable(),
{
    if let Ok(img) = read_image(s).0 {
        let s1 = read_superblock(s).1;
        let s2 = read_table(s1, INODE_COUNT as nat).1;
        let s3 = read_bitmap(s2, img.sb.num_blocks as nat).1;
        lemma_read_table(s1, INODE_COUNT as nat);
        lemma_read_blocks(s3, img.sb.num_blocks as nat, img.bs());
    }
}

} // verus!
