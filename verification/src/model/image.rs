//! The image as a value: geometry, inode table, bitmap and data blocks, with
//! the block layer's operations on it.

use vstd::prelude::*;
use crate::block::{Superblock, INODE_COUNT, MIN_BLOCK_SIZE};
use crate::codec::{with_word, word};
use crate::error::{ErrorView, Outcome};
use crate::inode::{
    empty_inode, fresh_inode, null_pointers, FileKind, InodeView, DIRECT_POINTERS, NULL_BLOCK,
};

verus! {

/// The mathematical value of an [`Image`](crate::block::Image).
#[verifier::ext_equal]
pub struct ImageView {
    pub sb: Superblock,
    pub inodes: Seq<InodeView>,
    pub bitmap: Seq<bool>,
    pub blocks: Seq<Seq<u8>>,
}

/// `n` zero bytes.
pub open spec fn zeros(n: nat) -> Seq<u8> {
    Seq::new(n, |j: int| 0u8)
}

/// The first position from `i` on that holds `false`; the length if there is
/// none.
pub open spec fn first_clear_from(bits: Seq<bool>, i: int) -> int
    decreases bits.len() - i,
{
    if i >= bits.len() || !bits[i] {
        i
    } else {
        first_clear_from(bits, i + 1)
    }
}

/// The last position below `n` that holds `false`; the length if there is
/// none.
pub open spec fn last_clear_below(bits: Seq<bool>, n: int) -> int
    decreases n,
{
    if n <= 0 {
        bits.len() as int
    } else if !bits[n - 1] {
        n - 1
    } else {
        last_clear_below(bits, n - 1)
    }
}

/// The last clear position is the length, with only `true` below, or holds
/// `false`.
pub proof fn lemma_last_clear(bits: Seq<bool>, n: int)
    requires
        0 <= n <= bits.len(),
    ensures
        0 <= last_clear_below(bits, n) <= bits.len(),
        last_clear_below(bits, n) < bits.len() ==> {
            &&& last_clear_below(bits, n) < n
            &&& !bits[last_clear_below(bits, n)]
            &&& forall|j: int| last_clear_below(bits, n) < j < n ==> bits[j]
        },
        last_clear_below(bits, n) == bits.len() ==> forall|j: int| 0 <= j < n ==> bits[j],
    decreases n,
{
    if n > 0 && bits[n - 1] {
        lemma_last_clear(bits, n - 1);
    }
}

/// The first position that holds `false`; the length if there is none.
pub open spec fn first_clear(bits: Seq<bool>) -> int {
    first_clear_from(bits, 0)
}

/// The first clear position is the length, or holds `false` with only `true`
/// before it.
pub proof fn lemma_first_clear(bits: Seq<bool>, i: int)
    requires
        0 <= i <= bits.len(),
    ensures
        i <= first_clear_from(bits, i) <= bits.len(),
        first_clear_from(bits, i) < bits.len() ==> !bits[first_clear_from(bits, i)],
        forall|j: int| i <= j < first_clear_from(bits, i) ==> bits[j],
    decreases bits.len() - i,
{
    if i < bits.len() && bits[i] {
        lemma_first_clear(bits, i + 1);
    }
}

/// The pointers of `s` that are in use, in order.
pub open spec fn live(s: Seq<u32>) -> Seq<u32>
    decreases s.len(),
{
    if s.len() == 0 {
        s
    } else if s.last() == NULL_BLOCK {
        live(s.drop_last())
    } else {
        live(s.drop_last()).push(s.last())
    }
}

/// No more pointers are in use than there are.
pub proof fn lemma_live_len(s: Seq<u32>)
    ensures
        live(s).len() <= s.len(),
    decreases s.len(),
{
    if s.len() > 0 {
        lemma_live_len(s.drop_last());
    }
}

/// Whether one of `ptrs` names block `b`.
pub open spec fn names_block(ptrs: Seq<u32>, b: int) -> bool {
    exists|j: int| 0 <= j < ptrs.len() && #[trigger] ptrs[j] == b
}

/// The bitmap after the blocks in `ptrs` were given back.
pub open spec fn released(bitmap: Seq<bool>, ptrs: Seq<u32>) -> Seq<bool> {
    Seq::new(bitmap.len(), |b: int| bitmap[b] && !names_block(ptrs, b))
}

/// `n` divided by `d`, rounded up; nothing where `d` is zero.
pub open spec fn ceil_div(n: int, d: int) -> int {
    if d == 0 {
        0
    } else {
        (n + d - 1) / d
    }
}

/// Block `k` of `d` bytes starts before byte `n` exactly if `n` bytes cover
/// more than `k` blocks.
pub proof fn lemma_ceil_div(n: int, d: int, k: int)
    requires
        d > 0,
    ensures
        k * d < n <==> k < ceil_div(n, d),
        n >= 0 ==> ceil_div(n, d) >= 0,
        0 <= n ==> ceil_div(n, d) <= n,
{
    let q = ceil_div(n, d);
    vstd::arithmetic::div_mod::lemma_fundamental_div_mod(n + d - 1, d);
    assert(n <= q * d < n + d) by {
        vstd::arithmetic::mul::lemma_mul_is_commutative(q, d);
    }
    if k < q {
        assert(k * d <= q * d - d) by (nonlinear_arith)
            requires
                k + 1 <= q,
                d > 0,
        ;
    } else {
        assert(k * d >= q * d) by (nonlinear_arith)
            requires
                k >= q,
                d > 0,
        ;
    }
    if n >= 0 {
        assert(0 <= q <= n) by (nonlinear_arith)
            requires
                n <= q * d < n + d,
                d > 0,
                n >= 0,
        ;
    }
}

/// Byte `p` of block `k` is byte `k * d + p` of the whole.
pub proof fn lemma_block_offset(k: int, p: int, d: int)
    requires
        0 <= p < d,
    ensures
        (k * d + p) / d == k,
        (k * d + p) % d == p,
{
    vstd::arithmetic::div_mod::lemma_fundamental_div_mod_converse(k * d + p, d, k, p);
}

/// Divides, rounding up.
pub fn div_ceil(n: u64, d: u64) -> (q: u64)
    requires
        d > 0,
    ensures
        q == ceil_div(n as int, d as int),
{
    let q: u64 = n / d;
    let r: u64 = n % d;
    proof {
        vstd::arithmetic::div_mod::lemma_fundamental_div_mod(n as int, d as int);
        vstd::arithmetic::mul::lemma_mul_is_commutative(q as int, d as int);
        if r == 0 {
            vstd::arithmetic::div_mod::lemma_fundamental_div_mod_converse(
                n + d - 1,
                d as int,
                q as int,
                d - 1,
            );
        } else {
            assert((q + 1) * d == q * d + d) by (nonlinear_arith);
            vstd::arithmetic::div_mod::lemma_fundamental_div_mod_converse(
                n + d - 1,
                d as int,
                q + 1,
                r - 1,
            );
            assert(q < u64::MAX) by (nonlinear_arith)
                requires
                    n == q * d + r,
                    r > 0,
                    d > 0,
                    n <= u64::MAX,
            ;
        }
    }
    if r == 0 {
        q
    } else {
        q + 1
    }
}

/// The image that `Image::new` makes.
pub open spec fn fresh_image(block_size: nat, num_blocks: nat) -> ImageView {
    ImageView {
        sb: Superblock {
            block_size: block_size as u32,
            num_blocks: num_blocks as u32,
            num_inodes: 256,
            root_inode: 0,
        },
        inodes: Seq::new(
            INODE_COUNT as nat,
            |i: int|
                if i == 0 {
                    fresh_inode(0, FileKind::Directory)
                } else {
                    empty_inode(i as u32)
                },
        ),
        bitmap: Seq::new(num_blocks, |b: int| false),
        blocks: Seq::new(num_blocks, |b: int| zeros(block_size)),
    }
}

/// A fresh image of the given geometry, or the reason why there is none.
pub open spec fn new_image(block_size: nat, num_blocks: nat) -> Outcome<ImageView> {
    if block_size < MIN_BLOCK_SIZE {
        Err(ErrorView::Corrupt("block size must be at least 64 bytes"@))
    } else if num_blocks == 0 {
        Err(ErrorView::Corrupt("num_blocks must be > 0"@))
    } else {
        Ok(fresh_image(block_size, num_blocks))
    }
}

impl ImageView {
    /// Bytes per block.
    pub open spec fn bs(self) -> int {
        self.sb.block_size as int
    }

    /// Pointers per indirect block.
    pub open spec fn words(self) -> int {
        self.sb.block_size as int / 4
    }

    /// Directory entries per block.
    pub open spec fn slots(self) -> int {
        self.sb.block_size as int / 68
    }

    /// The tables have the sizes that the superblock gives.
    pub open spec fn shaped(self) -> bool {
        &&& self.inodes.len() == INODE_COUNT
        &&& self.bitmap.len() == self.sb.num_blocks
        &&& self.blocks.len() == self.sb.num_blocks
        &&& forall|b: int|
            0 <= b < self.blocks.len() ==> (#[trigger] self.blocks[b]).len() == self.bs()
        &&& forall|i: int|
            0 <= i < self.inodes.len() ==> (#[trigger] self.inodes[i]).direct.len()
                == DIRECT_POINTERS
    }

    /// Which inodes are in use.
    pub open spec fn in_use(self) -> Seq<bool> {
        Seq::new(self.inodes.len(), |i: int| self.inodes[i].allocated)
    }

    /// The image with inode `i` replaced.
    pub open spec fn with_inode(self, i: int, node: InodeView) -> ImageView {
        ImageView { inodes: self.inodes.update(i, node), ..self }
    }

    /// The image with block `b` replaced.
    pub open spec fn with_block(self, b: int, data: Seq<u8>) -> ImageView {
        ImageView { blocks: self.blocks.update(b, data), ..self }
    }

    /// Claims the first free block and zeroes it.
    pub open spec fn alloc_block(self) -> (ImageView, Outcome<u32>) {
        let b = first_clear(self.bitmap);
        if b < self.bitmap.len() {
            (
                ImageView {
                    bitmap: self.bitmap.update(b, true),
                    blocks: self.blocks.update(b, zeros(self.blocks[b].len())),
                    ..self
                },
                Ok(b as u32),
            )
        } else {
            (self, Err(ErrorView::OutOfSpace))
        }
    }

    /// Marks block `b` as free; a block outside the image is ignored.
    pub open spec fn free_block(self, b: u32) -> ImageView {
        if b < self.bitmap.len() {
            ImageView { bitmap: self.bitmap.update(b as int, false), ..self }
        } else {
            self
        }
    }

    /// Claims the first inode that is not in use; the result is its id.
    pub open spec fn alloc_inode(self, kind: FileKind) -> (ImageView, Outcome<u32>) {
        let i = first_clear(self.in_use());
        if i < self.inodes.len() {
            let id = self.inodes[i].id;
            (self.with_inode(i, fresh_inode(id, kind)), Ok(id))
        } else {
            (self, Err(ErrorView::OutOfInodes))
        }
    }

    /// The position of the inode that a new file or directory gets; the length
    /// of the table if all are in use. Files take the first that is not in
    /// use, directories the last.
    pub open spec fn vacant(self, kind: FileKind) -> int {
        if kind == FileKind::File {
            first_clear(self.in_use())
        } else {
            last_clear_below(self.in_use(), self.inodes.len() as int)
        }
    }

    /// Claims an inode for a new file or directory; the result is its id.
    pub open spec fn claim_inode(self, kind: FileKind) -> (ImageView, Outcome<u32>) {
        let i = self.vacant(kind);
        if i < self.inodes.len() {
            let id = self.inodes[i].id;
            (self.with_inode(i, fresh_inode(id, kind)), Ok(id))
        } else {
            (self, Err(ErrorView::OutOfInodes))
        }
    }

    /// The inode that is claimed was not in use; if there is none, all are.
    pub proof fn lemma_vacant(self, kind: FileKind)
        ensures
            0 <= self.vacant(kind) <= self.inodes.len(),
            self.vacant(kind) < self.inodes.len() ==> !self.inodes[self.vacant(kind)].allocated,
            self.vacant(kind) == self.inodes.len() ==> forall|i: int|
                0 <= i < self.inodes.len() ==> (#[trigger] self.inodes[i]).allocated,
    {
        let bits = self.in_use();
        lemma_first_clear(bits, 0);
        lemma_last_clear(bits, bits.len() as int);
        if self.vacant(kind) == self.inodes.len() {
            assert forall|i: int| 0 <= i < self.inodes.len() implies (
            #[trigger] self.inodes[i]).allocated by {
                assert(bits[i]);
            }
        }
    }

    /// All pointer fields of `node`, used or not: the direct pointers, then the
    /// indirect block and the pointers that it stores.
    pub open spec fn pointer_fields(self, node: InodeView) -> Seq<u32> {
        if node.indirect == NULL_BLOCK {
            node.direct
        } else {
            node.direct.push(node.indirect) + Seq::new(
                self.words() as nat,
                |i: int| word(self.blocks[node.indirect as int], i),
            )
        }
    }

    /// The pointers of `node` can be read: if it has an indirect block, that
    /// block lies inside the image and holds a full table of pointers.
    pub open spec fn pointers_readable(self, node: InodeView) -> bool {
        node.indirect != NULL_BLOCK ==> {
            &&& node.indirect < self.blocks.len()
            &&& 4 * self.words() <= self.blocks[node.indirect as int].len()
        }
    }

    /// Every block that inode `id` refers to.
    pub open spec fn gather(self, id: int) -> Seq<u32> {
        if self.inodes[id].allocated {
            live(self.pointer_fields(self.inodes[id]))
        } else {
            Seq::empty()
        }
    }

    /// Gives back inode `id` and every block that it refers to.
    pub open spec fn free_inode(self, id: u32) -> ImageView {
        ImageView {
            bitmap: released(self.bitmap, self.gather(id as int)),
            inodes: self.inodes.update(id as int, empty_inode(id)),
            ..self
        }
    }

    /// Gives back the blocks of inode `id`, which becomes empty.
    pub open spec fn truncated(self, id: int) -> ImageView {
        ImageView {
            bitmap: released(self.bitmap, self.gather(id)),
            inodes: self.inodes.update(
                id,
                InodeView {
                    direct: null_pointers(),
                    indirect: NULL_BLOCK,
                    size: 0,
                    ..self.inodes[id]
                },
            ),
            ..self
        }
    }

    /// The pointer to the `k`-th data block of `node`.
    pub open spec fn pointer(self, node: InodeView, k: int) -> u32 {
        if k < DIRECT_POINTERS {
            node.direct[k]
        } else if node.indirect == NULL_BLOCK || k - DIRECT_POINTERS >= self.words() {
            NULL_BLOCK
        } else {
            word(self.blocks[node.indirect as int], k - DIRECT_POINTERS)
        }
    }

    /// The `k`-th data block of `node`, if it has one.
    pub open spec fn logical_block(self, node: InodeView, k: int) -> Option<u32> {
        if self.pointer(node, k) == NULL_BLOCK {
            None
        } else {
            Some(self.pointer(node, k))
        }
    }

    /// A block of pointers of which none is used.
    pub open spec fn null_block(self) -> Seq<u8> {
        Seq::new(
            self.sb.block_size as nat,
            |j: int|
                if j < 4 * self.words() {
                    255u8
                } else {
                    0u8
                },
        )
    }

    /// A block of unused pointers holds unused pointers.
    pub proof fn lemma_null_block(self, i: int)
        requires
            0 <= i < self.words(),
        ensures
            word(self.null_block(), i) == NULL_BLOCK,
    {
        let s = self.null_block().subrange(4 * i, 4 * i + 4);
        assert(s[0] == 255 && s[1] == 255 && s[2] == 255 && s[3] == 255);
    }

    /// Gives inode `id`, which has no indirect block, one without pointers.
    pub open spec fn alloc_indirect(self, id: int) -> (ImageView, Outcome<u32>) {
        match self.alloc_block() {
            (img, Ok(b)) => (
                img.with_block(b as int, self.null_block()).with_inode(
                    id,
                    InodeView { indirect: b, ..img.inodes[id] },
                ),
                Ok(b),
            ),
            (img, Err(e)) => (img, Err(e)),
        }
    }

    /// Claims a block and enters it as the `k`-th data block of inode `id`,
    /// behind the indirect block that the inode has.
    pub open spec fn alloc_behind_indirect(self, id: int, k: int) -> (ImageView, Outcome<u32>) {
        match self.alloc_block() {
            (img, Ok(b)) => {
                let table = img.inodes[id].indirect as int;
                (
                    img.with_block(
                        table,
                        with_word(img.blocks[table], k - DIRECT_POINTERS, b),
                    ),
                    Ok(b),
                )
            },
            (img, Err(e)) => (img, Err(e)),
        }
    }

    /// Makes sure that inode `id` has a `k`-th data block.
    pub open spec fn alloc_logical_block(self, id: int, k: int) -> (ImageView, Outcome<u32>) {
        let node = self.inodes[id];
        if self.pointer(node, k) != NULL_BLOCK {
            (self, Ok(self.pointer(node, k)))
        } else if k < DIRECT_POINTERS {
            match self.alloc_block() {
                (img, Ok(b)) => (
                    img.with_inode(id, InodeView { direct: node.direct.update(k, b), ..node }),
                    Ok(b),
                ),
                (img, Err(e)) => (img, Err(e)),
            }
        } else if k - DIRECT_POINTERS >= self.words() {
            (self, Err(ErrorView::FileTooLarge))
        } else if node.indirect == NULL_BLOCK {
            match self.alloc_indirect(id) {
                (img, Ok(_)) => img.alloc_behind_indirect(id, k),
                (img, Err(e)) => (img, Err(e)),
            }
        } else {
            self.alloc_behind_indirect(id, k)
        }
    }
}

} // verus!
