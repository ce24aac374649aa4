//! The serialized form of an image and of its directory entries, byte by byte.

use vstd::prelude::*;
use vstd::utf8::{encode_utf8, valid_utf8};
use crate::codec::{
    lemma_u16_roundtrip, lemma_u32_roundtrip, lemma_u64_roundtrip, splice, u16_bytes, u16_value,
    u32_bytes, u32_value, u64_bytes, u64_value,
};
use crate::error::ErrorView;
use crate::inode::{FileKind, InodeView};
use crate::model::entry::{decode_entry, empty_entry, entry_bytes, used_entry, EntryView};
use crate::model::format::{
    bit, bitmap_bytes, image_bytes, law_dump_load, law_image_size, lemma_inode_roundtrip,
    lemma_packed_bit, lemma_read_blocks_err, lemma_read_table_err, lemma_table_roundtrip,
    read_blocks, read_image, read_inode, read_table, superblock_bytes, table_bytes, unpacked,
};
use crate::model::image::{ceil_div, ImageView};

verus! {

/// The number that `n` bytes from `off` on stand for, the lowest byte first.
pub open spec fn number(s: Seq<u8>, off: int, n: nat) -> int
    decreases n,
{
    if n == 0 {
        0
    } else {
        s[off] + 256 * number(s, off + 1, (n - 1) as nat)
    }
}

proof fn lemma_number_2(s: Seq<u8>, off: int)
    requires
        0 <= off,
        off + 2 <= s.len(),
    ensures
        u16_value(s.subrange(off, off + 2)) == number(s, off, 2),
{
    reveal_with_fuel(number, 3);
}

/// The word at `off`.
pub proof fn lemma_number_4(s: Seq<u8>, off: int)
    requires
        0 <= off,
        off + 4 <= s.len(),
    ensures
        u32_value(s.subrange(off, off + 4)) == number(s, off, 4),
        0 <= number(s, off, 4) < 0x1_0000_0000,
{
    reveal_with_fuel(number, 5);
}

proof fn lemma_number_8(s: Seq<u8>, off: int)
    requires
        0 <= off,
        off + 8 <= s.len(),
    ensures
        u64_value(s.subrange(off, off + 8)) == number(s, off, 8),
{
    let t = s.subrange(off, off + 8);
    reveal_with_fuel(number, 9);
    assert(t.take(4) =~= s.subrange(off, off + 4));
    assert(t.skip(4) =~= s.subrange(off + 4, off + 8));
    lemma_number_4(s, off);
    lemma_number_4(s, off + 4);
}

/// The image starts with the letters `GRIDFS01`.
pub open spec fn starts_with_name(s: Seq<u8>) -> bool {
    &&& s[0] == 0x47
    &&& s[1] == 0x52
    &&& s[2] == 0x49
    &&& s[3] == 0x44
    &&& s[4] == 0x46
    &&& s[5] == 0x53
    &&& s[6] == 0x30
    &&& s[7] == 0x31
}

/// Where the bitmap starts: behind 24 bytes and 256 inodes of 64 bytes.
pub open spec fn bitmap_start() -> int {
    24int + 64 * 256
}

/// Where the data area starts: behind one bit for each block.
pub open spec fn data_start(num_blocks: int) -> int {
    bitmap_start() + (num_blocks + 7) / 8
}

/// Where the image ends.
pub open spec fn image_end(num_blocks: int, block_size: int) -> int {
    data_start(num_blocks) + num_blocks * block_size
}

/// The kind of inode `i` is told by a byte that stands for one.
pub open spec fn kind_known(s: Seq<u8>, i: int) -> bool {
    s[24 + 64 * i] == 1 || s[24 + 64 * i] == 2
}

/// The kind of inode `i` is not told by a byte that stands for one, those of the
/// inodes before it are.
pub open spec fn first_unknown(s: Seq<u8>, i: int) -> bool {
    &&& 0 <= i < 256
    &&& 24 + 64 * i + 2 <= s.len()
    &&& !kind_known(s, i)
    &&& forall|j: int| 0 <= j < i ==> #[trigger] kind_known(s, j)
}

/// `node` is inode `i` of the image in `s`.
pub open spec fn shows_inode(s: Seq<u8>, i: int, node: InodeView) -> bool {
    let at = 24 + 64 * i;
    &&& node.id == i
    &&& s[at] == match node.kind {
        FileKind::File => 1u8,
        FileKind::Directory => 2u8,
    }
    &&& node.allocated <==> s[at + 1] != 0
    &&& node.link_count == number(s, at + 2, 2)
    &&& node.size == number(s, at + 4, 8)
    &&& node.direct.len() == 12
    &&& forall|k: int| 0 <= k < 12 ==> #[trigger] node.direct[k] == number(s, at + 12 + 4 * k, 4)
    &&& node.indirect == number(s, at + 60, 4)
}

/// `img` is the image in `s`.
pub open spec fn shows_image(s: Seq<u8>, img: ImageView) -> bool {
    let n = img.sb.num_blocks as int;
    let bs = img.sb.block_size as int;
    &&& bs == number(s, 8, 4)
    &&& n == number(s, 12, 4)
    &&& img.sb.num_inodes == number(s, 16, 4)
    &&& img.sb.root_inode == number(s, 20, 4)
    &&& img.inodes.len() == 256
    &&& forall|i: int| 0 <= i < 256 ==> shows_inode(s, i, #[trigger] img.inodes[i])
    &&& img.bitmap.len() == n
    &&& forall|b: int|
        0 <= b < n ==> #[trigger] img.bitmap[b] == ((s[bitmap_start() + b / 8] >> ((b % 8) as u8))
            & 1u8 != 0)
    &&& img.blocks.len() == n
    &&& forall|b: int|
        0 <= b < n ==> #[trigger] img.blocks[b] == s.subrange(
            data_start(n) + b * bs,
            data_start(n) + b * bs + bs,
        )
}

/// What reading one inode gives.
proof fn lemma_read_inode(s: Seq<u8>, i: int)
    requires
        0 <= i < 256,
        24 + 64 * i <= s.len(),
    ensures
        ({
            let at = 24 + 64 * i;
            let (r, left) = read_inode(s.skip(at), i as u32);
            &&& r is Ok <==> at + 64 <= s.len() && kind_known(s, i)
            &&& r matches Ok(node) ==> shows_inode(s, i, node) && left == s.skip(at + 64)
            &&& r matches Err(e) ==> if at + 2 <= s.len() && !kind_known(s, i) {
                e == ErrorView::Corrupt("bad file kind"@) && left == s.skip(at + 2)
            } else {
                e == ErrorView::Io("failed to fill whole buffer"@) && left.len() == 0
            }
        }),
{
    let at = 24 + 64 * i;
    let t = s.skip(at);
    let (r, left) = read_inode(t, i as u32);
    if t.len() >= 2 {
        assert(t[0] == s[at]);
        assert(t[1] == s[at + 1]);
    }
    if t.len() >= 2 && !kind_known(s, i) {
        assert(left =~= s.skip(at + 2));
    }
    if let Ok(node) = r {
        assert(t.subrange(2, 4) =~= s.subrange(at + 2, at + 4));
        assert(t.subrange(4, 12) =~= s.subrange(at + 4, at + 12));
        assert(t.subrange(60, 64) =~= s.subrange(at + 60, at + 64));
        lemma_number_2(s, at + 2);
        lemma_number_8(s, at + 4);
        lemma_number_4(s, at + 60);
        assert forall|k: int| 0 <= k < 12 implies #[trigger] node.direct[k] == number(
            s,
            at + 12 + 4 * k,
            4,
        ) by {
            assert(t.subrange(12 + 4 * k, 16 + 4 * k) =~= s.subrange(
                at + 12 + 4 * k,
                at + 12 + 4 * k + 4,
            ));
            lemma_number_4(s, at + 12 + 4 * k);
        }
        assert(left =~= s.skip(at + 64));
    }
}

/// What reading the first `n` inodes gives.
proof fn lemma_read_inodes(s: Seq<u8>, n: nat)
    requires
        n <= 256,
        24 <= s.len(),
    ensures
        ({
            let (r, left) = read_table(s.skip(24), n);
            &&& r is Ok <==> 24 + 64 * n <= s.len() && forall|i: int|
                0 <= i < n ==> #[trigger] kind_known(s, i)
            &&& r matches Ok(nodes) ==> {
                &&& nodes.len() == n
                &&& forall|i: int| 0 <= i < n ==> shows_inode(s, i, #[trigger] nodes[i])
                &&& left == s.skip(24 + 64 * (n as int))
            }
            &&& r matches Err(e) ==> {
                ||| e == ErrorView::Corrupt("bad file kind"@) && exists|i: int|
                    #[trigger] first_unknown(s, i) && i < n && left == s.skip(24 + 64 * i + 2)
                ||| e == ErrorView::Io("failed to fill whole buffer"@) && left.len() == 0 && s.len()
                    < 24 + 64 * n && forall|i: int|
                    0 <= i < n && 24 + 64 * i + 2 <= s.len() ==> #[trigger] kind_known(s, i)
            }
        }),
    decreases n,
{
    if n > 0 {
        let m = (n - 1) as nat;
        let (r, left) = read_table(s.skip(24), m);
        lemma_read_inodes(s, m);
        if r is Ok {
            lemma_read_inode(s, m as int);
            assert(left == s.skip(24 + 64 * (m as int)));
            if read_table(s.skip(24), n).0 is Ok {
                assert forall|i: int| 0 <= i < n implies #[trigger] kind_known(s, i) by {}
            }
            if 24 + 64 * m + 2 <= s.len() && !kind_known(s, m as int) {
                assert(first_unknown(s, m as int));
            }
        } else {
            lemma_read_table_err(s.skip(24), m, n);
            if forall|i: int| 0 <= i < n ==> #[trigger] kind_known(s, i) {
                assert forall|i: int| 0 <= i < m implies #[trigger] kind_known(s, i) by {}
            }
        }
    } else {
        assert(s.skip(24) =~= s.skip(24 + 64 * (n as int)));
    }
}

/// What reading the first `n` blocks gives.
proof fn lemma_read_area(s: Seq<u8>, at: int, n: nat, bs: int)
    requires
        0 <= at <= s.len(),
        0 <= bs,
    ensures
        ({
            let (r, left) = read_blocks(s.skip(at), n, bs);
            &&& n * bs >= 0
            &&& r is Ok <==> at + n * bs <= s.len()
            &&& r matches Ok(blocks) ==> {
                &&& blocks.len() == n
                &&& forall|b: int|
                    0 <= b < n ==> #[trigger] blocks[b] == s.subrange(
                        at + b * bs,
                        at + b * bs + bs,
                    )
                &&& left == s.skip(at + n * bs)
            }
            &&& r matches Err(e) ==> e == ErrorView::Io("failed to fill whole buffer"@) && left.len()
                == 0
        }),
    decreases n,
{
    if n > 0 {
        let m = (n - 1) as nat;
        lemma_read_area(s, at, m, bs);
        assert(n * bs == m * bs + bs) by (nonlinear_arith)
            requires
                n == m + 1,
        ;
        let (r, left) = read_blocks(s.skip(at), m, bs);
        if r is Ok {
            let mid = at + m * bs;
            if left.len() >= bs {
                assert(left.take(bs) =~= s.subrange(mid, mid + bs));
                assert(left.skip(bs) =~= s.skip(mid + bs));
            }
        } else {
            lemma_read_blocks_err(s.skip(at), m, n, bs);
        }
    } else {
        assert(0 * bs == 0) by (nonlinear_arith);
        assert(s.skip(at) =~= s.skip(at + n * bs));
    }
}

/// The first eight bytes are the letters `GRIDFS01`, or not.
proof fn lemma_name(s: Seq<u8>)
    requires
        s.len() >= 8,
    ensures
        s.take(8) == crate::block::MAGIC@ <==> starts_with_name(s),
{
    let t = s.take(8);
    let m = crate::block::MAGIC@;
    if t == m {
        assert(s[0] == t[0] && s[1] == t[1] && s[2] == t[2] && s[3] == t[3]);
        assert(s[4] == t[4] && s[5] == t[5] && s[6] == t[6] && s[7] == t[7]);
    }
    if starts_with_name(s) {
        assert(t =~= m);
    }
}

/// Which bytes are an image, which image they are, and what is told of others.
/// Bytes behind the image are left.
pub proof fn law_load(s: Seq<u8>)
    ensures
        ({
            let (r, left) = read_image(s);
            let n = number(s, 12, 4);
            let bs = number(s, 8, 4);
            let tables_known = forall|i: int| 0 <= i < 256 ==> #[trigger] kind_known(s, i);
            let some_unknown = exists|i: int| #[trigger] first_unknown(s, i);
            &&& r is Ok <==> {
                &&& s.len() >= 24
                &&& starts_with_name(s)
                &&& number(s, 16, 4) == 256
                &&& tables_known
                &&& s.len() >= image_end(n, bs)
            }
            &&& r matches Ok(img) ==> shows_image(s, img) && left == s.skip(image_end(n, bs))
            &&& r matches Err(e) ==> if s.len() >= 8 && !starts_with_name(s) {
                e == ErrorView::Corrupt("bad magic"@) && left == s.skip(8)
            } else if s.len() >= 24 && number(s, 16, 4) != 256 {
                e == ErrorView::Corrupt("inode count mismatch"@) && left == s.skip(24)
            } else if s.len() >= 24 && some_unknown {
                &&& e == ErrorView::Corrupt("bad file kind"@)
                &&& exists|i: int| #[trigger]
                    first_unknown(s, i) && left == s.skip(24 + 64 * i + 2)
            } else {
                e == ErrorView::Io("failed to fill whole buffer"@) && left.len() == 0
            }
        }),
{
    let n = number(s, 12, 4);
    let bs = number(s, 8, 4);
    if s.len() >= 8 {
        lemma_name(s);
    }
    if s.len() >= 24 {
        lemma_number_4(s, 8);
        lemma_number_4(s, 12);
        lemma_number_4(s, 16);
        lemma_number_4(s, 20);
        lemma_read_inodes(s, 256);
        assert(n * bs >= 0) by (nonlinear_arith)
            requires
                n >= 0,
                bs >= 0,
        ;
        if s.len() >= bitmap_start() {
            let flags = s.skip(bitmap_start());
            let m = ceil_div(n, 8);
            if flags.len() >= m {
                assert(flags.skip(m) =~= s.skip(data_start(n)));
                lemma_read_area(s, data_start(n), n as nat, bs);
                assert forall|b: int| 0 <= b < n implies #[trigger] unpacked(
                    flags.take(m),
                    n as nat,
                )[b] == ((s[bitmap_start() + b / 8] >> ((b % 8) as u8)) & 1u8 != 0) by {
                    assert(flags.take(m)[b / 8] == s[bitmap_start() + b / 8]);
                }
            }
        }
    }
}

/// Where the bytes of inode `i` stand in the table.
proof fn lemma_table_flag(nodes: Seq<InodeView>, i: int)
    requires
        nodes.len() <= 256,
        forall|j: int|
            0 <= j < nodes.len() ==> {
                &&& (#[trigger] nodes[j]).id == j
                &&& nodes[j].direct.len() == 12
            },
        0 <= i < nodes.len(),
    ensures
        table_bytes(nodes).len() == 64 * nodes.len(),
        table_bytes(nodes)[64 * i + 1] == if nodes[i].allocated {
            1u8
        } else {
            0u8
        },
    decreases nodes.len(),
{
    let head = nodes.drop_last();
    lemma_table_roundtrip(nodes, Seq::empty());
    lemma_table_roundtrip(head, Seq::empty());
    lemma_inode_roundtrip(nodes.last(), Seq::empty());
    if i < nodes.len() - 1 {
        assert(head[i] == nodes[i]);
        lemma_table_flag(head, i);
    }
}

/// The bytes of a dumped image: what each of them stands for. No flag in use is
/// shown but by 1, and the bits behind the last block are clear.
pub proof fn law_dump(img: ImageView)
    requires
        img.storable(),
    ensures
        ({
            let s = image_bytes(img);
            let n = img.sb.num_blocks as int;
            &&& s.len() == image_end(n, img.bs())
            &&& starts_with_name(s)
            &&& shows_image(s, img)
            &&& forall|i: int|
                0 <= i < 256 ==> s[24 + 64 * i + 1] == if (#[trigger] img.inodes[i]).allocated {
                    1u8
                } else {
                    0u8
                }
            &&& forall|j: int, c: u8|
                0 <= j < (n + 7) / 8 && c < 8 && 8 * j + c >= n ==> (#[trigger] (s[bitmap_start()
                    + j] >> c)) & 1u8 == 0
        }),
{
    let s = image_bytes(img);
    let n = img.sb.num_blocks as int;
    law_dump_load(img, Seq::empty());
    assert(s + Seq::<u8>::empty() =~= s);
    law_load(s);
    law_image_size(img);
    lemma_table_roundtrip(img.inodes, Seq::empty());
    let front = superblock_bytes(img.sb);
    assert(front.len() == 24);
    assert forall|i: int| 0 <= i < 256 implies s[24 + 64 * i + 1] == if (
    #[trigger] img.inodes[i]).allocated {
        1u8
    } else {
        0u8
    } by {
        lemma_table_flag(img.inodes, i);
        assert(s[24 + 64 * i + 1] == table_bytes(img.inodes)[64 * i + 1]);
    }
    assert forall|j: int, c: u8|
        0 <= j < (n + 7) / 8 && c < 8 && 8 * j + c >= n implies (#[trigger] (s[bitmap_start() + j]
        >> c)) & 1u8 == 0 by {
        lemma_packed_bit(img.bitmap, 8 * j, c);
        assert(s[bitmap_start() + j] == bitmap_bytes(img.bitmap)[j]);
        assert(!bit(s[bitmap_start() + j], c));
    }
}

/// Numbers are stored with the lowest byte first, in two, four and eight bytes.
pub proof fn law_little_endian(x: u16, y: u32, z: u64)
    ensures
        u16_bytes(x).len() == 2,
        number(u16_bytes(x), 0, 2) == x,
        u32_bytes(y).len() == 4,
        number(u32_bytes(y), 0, 4) == y,
        u64_bytes(z).len() == 8,
        number(u64_bytes(z), 0, 8) == z,
{
    lemma_u16_roundtrip(x);
    lemma_u32_roundtrip(y);
    lemma_u64_roundtrip(z);
    lemma_number_2(u16_bytes(x), 0);
    lemma_number_4(u32_bytes(y), 0);
    lemma_number_8(u64_bytes(z), 0);
    assert(u16_bytes(x).subrange(0, 2) =~= u16_bytes(x));
    assert(u32_bytes(y).subrange(0, 4) =~= u32_bytes(y));
    assert(u64_bytes(z).subrange(0, 8) =~= u64_bytes(z));
}

/// Stored numbers are read as they were written.
pub proof fn law_stored_number(s: Seq<u8>)
    ensures
        s.len() == 2 ==> u16_value(s) == number(s, 0, 2),
        s.len() == 4 ==> u32_value(s) == number(s, 0, 4),
        s.len() == 8 ==> u64_value(s) == number(s, 0, 8),
{
    if s.len() == 2 {
        lemma_number_2(s, 0);
        assert(s.subrange(0, 2) =~= s);
    }
    if s.len() == 4 {
        lemma_number_4(s, 0);
        assert(s.subrange(0, 4) =~= s);
    }
    if s.len() == 8 {
        lemma_number_8(s, 0);
        assert(s.subrange(0, 8) =~= s);
    }
}

/// Writing into a buffer changes the bytes that are written, and no other.
pub proof fn law_splice(s: Seq<u8>, off: int, bytes: Seq<u8>)
    requires
        0 <= off,
        off + bytes.len() <= s.len(),
    ensures
        splice(s, off, bytes) == s.take(off) + bytes + s.skip(off + bytes.len()),
{
    assert(splice(s, off, bytes) =~= s.take(off) + bytes + s.skip(off + bytes.len()));
}

/// The 68 bytes of a directory entry: four for the inode, one that tells whether
/// it is in use, one for the length of the name, two zeros, and sixty for the
/// name, filled up with zeros. Of a longer name the first sixty bytes are kept.
pub proof fn law_entry_bytes(e: EntryView)
    ensures
        ({
            let s = entry_bytes(e);
            let name = encode_utf8(e.name);
            &&& s.len() == 68
            &&& number(s, 0, 4) == e.inode
            &&& s[4] == if e.used {
                1u8
            } else {
                0u8
            }
            &&& s[5] == e.name_len
            &&& s[6] == 0
            &&& s[7] == 0
            &&& forall|j: int|
                0 <= j < 60 ==> #[trigger] s[8 + j] == if j < name.len() {
                    name[j]
                } else {
                    0u8
                }
        }),
{
    let s = entry_bytes(e);
    lemma_u32_roundtrip(e.inode);
    assert(s.subrange(0, 4) =~= u32_bytes(e.inode));
    lemma_number_4(s, 0);
}

/// Which bytes are a directory entry, which one they are, and what is told of
/// others.
pub proof fn law_entry_read(s: Seq<u8>)
    ensures
        decode_entry(s) matches Ok(e) ==> {
            &&& s.len() >= 68
            &&& s[5] <= 60
            &&& valid_utf8(s.subrange(8, 8 + s[5]))
            &&& e.inode == number(s, 0, 4)
            &&& e.used <==> s[4] != 0
            &&& e.name_len == s[5]
            &&& encode_utf8(e.name) == s.subrange(8, 8 + s[5])
        },
        decode_entry(s) matches Err(e) ==> e == if s.len() < 68 {
            ErrorView::Corrupt("directory entry truncated"@)
        } else if s[5] > 60 {
            ErrorView::Corrupt("directory name overflows slot"@)
        } else {
            ErrorView::Corrupt("directory name not utf-8"@)
        },
        decode_entry(s) is Err <==> s.len() < 68 || s[5] > 60 || !valid_utf8(
            s.subrange(8, 8 + s[5]),
        ),
{
    if decode_entry(s) is Ok {
        lemma_number_4(s, 0);
        vstd::utf8::decode_utf8_encode_utf8(s.subrange(8, 8 + s[5]));
    }
}

/// The entry that is made for a name: in use, with the inode and the name.
pub proof fn law_used_entry(name: Seq<char>, target: u32)
    ensures
        used_entry(name, target).used,
        used_entry(name, target).inode == target,
        used_entry(name, target).name == name,
        encode_utf8(name).len() <= 60 ==> used_entry(name, target).name_len == encode_utf8(
            name,
        ).len(),
        !empty_entry().used,
        empty_entry().inode == 0,
        empty_entry().name_len == 0,
        empty_entry().name == Seq::<char>::empty(),
{
}

} // verus!
