//! What each operation gives on every path: when it succeeds, and why it fails
//! where it does.

use vstd::prelude::*;
use vstd::utf8::encode_utf8;
use crate::error::{ErrorView, Outcome};
use crate::inode::{FileKind, InodeView, NULL_BLOCK};
use crate::laws::blocks::{law_claim_inode, used_before, used_behind};
use crate::laws::listing::lists;
use crate::laws::make::{law_create_found, law_make_sound, law_mkdir_found};
use crate::laws::space::{blocks_needed, law_make_outcome, law_write_outcome};
use crate::laws::write::law_read_after_write;
use crate::model::dir::{first_named, is_named, position_from};
use crate::model::entry::EntryView;
use crate::model::image::{ceil_div, lemma_ceil_div, lemma_first_clear, lemma_last_clear, ImageView};
use crate::model::range::lemma_first_named;
use crate::model::tree::{ItemView, StatView};
use crate::path::{split, split_last};
use crate::text::decimal;

verus! {

/// The first item of a listing under `name` is that of inode `x`.
pub open spec fn first_is(items: Seq<ItemView>, name: Seq<char>, x: u32) -> bool {
    exists|i: int|
        {
            &&& 0 <= i < items.len()
            &&& (#[trigger] items[i]).name == name
            &&& items[i].inode == x
            &&& forall|j: int| 0 <= j < i ==> (#[trigger] items[j]).name != name
        }
}

impl ImageView {
    /// The items of the first entries come first.
    proof fn lemma_listing_prefix(self, es: Seq<EntryView>, k: int)
        requires
            0 <= k <= es.len(),
        ensures
            self.listing(es.take(k)).len() <= self.listing(es).len(),
            forall|i: int|
                0 <= i < self.listing(es.take(k)).len() ==> #[trigger] self.listing(es)[i]
                    == self.listing(es.take(k))[i],
        decreases es.len(),
    {
        if k == es.len() {
            assert(es.take(k) =~= es);
        } else {
            let head = es.drop_last();
            self.lemma_listing_prefix(head, k);
            assert(head.take(k) =~= es.take(k));
            assert forall|i: int| 0 <= i < self.listing(es.take(k)).len() implies #[trigger] self.listing(
                es,
            )[i] == self.listing(es.take(k))[i] by {
                assert(self.listing(head)[i] == self.listing(es.take(k))[i]);
            }
        }
    }

    /// The first entry in use under a name is the first item under it.
    pub proof fn lemma_listing_first(self, es: Seq<EntryView>, name: Seq<char>)
        ensures
            match first_named(es, name) {
                Some(e) => lists(self.listing(es), name) && first_is(
                    self.listing(es),
                    name,
                    e.inode,
                ),
                None => !lists(self.listing(es), name),
            },
    {
        let p = position_from(es, name, 0);
        let items = self.listing(es);
        lemma_first_named(es, name, 0);
        let before = es.take(p);
        assert forall|i: int| 0 <= i < self.listing(before).len() implies (
        #[trigger] self.listing(before)[i]).name != name by {
            let item = self.listing(before)[i];
            self.lemma_listing_items(before, item);
            assert(self.listing(before).contains(item));
            let q = choose|q: int|
                0 <= q < before.len() && (#[trigger] before[q]).used && self.item(before[q])
                    == item;
            assert(!is_named(es[q], name));
        }
        if p < es.len() {
            let upto = es.take(p + 1);
            assert(upto.drop_last() =~= before);
            assert(upto.last() == es[p]);
            self.lemma_listing_prefix(es, p + 1);
            let i = self.listing(before).len() as int;
            assert(self.listing(upto)[i] == self.item(es[p]));
            assert(items[i] == self.listing(upto)[i]);
            assert forall|j: int| 0 <= j < i implies (#[trigger] items[j]).name != name by {
                assert(items[j] == self.listing(upto)[j]);
                assert(self.listing(upto)[j] == self.listing(before)[j]);
            }
            assert(first_is(items, name, es[p].inode));
        } else {
            assert(before =~= es);
        }
    }
}

/// Where names lead. No names lead to the root. One name more leads from a
/// directory to the inode of the first item under it; it is not found where the
/// directory lists no such name, and a file is no directory.
pub proof fn law_resolve(img: ImageView, parts: Seq<Seq<char>>, name: Seq<char>)
    ensures
        img.resolve(Seq::empty()) == Ok::<u32, ErrorView>(0),
        match img.resolve(parts) {
            Err(e) => img.resolve(parts.push(name)) == Err::<u32, ErrorView>(e),
            Ok(d) => if img.inodes[d as int].kind == FileKind::File {
                img.resolve(parts.push(name)) == Err::<u32, ErrorView>(
                    ErrorView::NotADirectory(name),
                )
            } else {
                match img.list(d) {
                    Err(e) => img.resolve(parts.push(name)) == Err::<u32, ErrorView>(e),
                    Ok(items) => match img.resolve(parts.push(name)) {
                        Ok(x) => lists(items, name) && first_is(items, name, x),
                        Err(e) => !lists(items, name) && e == ErrorView::NotFound(name),
                    },
                }
            },
        },
{
    assert(parts.push(name).drop_last() =~= parts);
    if let Ok(d) = img.resolve(parts) {
        if let Ok(es) = img.entries(img.inodes[d as int]) {
            img.lemma_listing_first(es, name);
        }
    }
}

/// A path leads where its components lead, and an invalid path nowhere.
pub proof fn law_lookup(img: ImageView, path: Seq<char>)
    ensures
        img.lookup(path) == match split(path) {
            Ok(parts) => img.resolve(parts),
            Err(e) => Err(e),
        },
        split(path) matches Err(e) ==> e == ErrorView::InvalidPath(path),
{
}

/// A path that leads nowhere is answered with the reason by every operation that
/// looks at it, and the image stays as it is.
pub proof fn law_missing_path(img: ImageView, path: Seq<char>, data: Seq<u8>)
    ensures
        img.lookup(path) matches Err(e) ==> {
            &&& img.stat(path) == Err::<StatView, ErrorView>(e)
            &&& img.read(path) == Err::<Seq<u8>, ErrorView>(e)
            &&& img.readdir(path) == Err::<Seq<ItemView>, ErrorView>(e)
            &&& img.write(path, data) == (img, Err::<nat, ErrorView>(e))
        },
{
}

/// Directories are listed and not read or written; files are not listed.
pub proof fn law_kinds_matter(img: ImageView, path: Seq<char>, data: Seq<u8>)
    ensures
        img.lookup(path) matches Ok(id) ==> match img.inodes[id as int].kind {
            FileKind::Directory => {
                &&& img.read(path) == Err::<Seq<u8>, ErrorView>(ErrorView::IsADirectory(path))
                &&& img.write(path, data) == (
                    img,
                    Err::<nat, ErrorView>(ErrorView::IsADirectory(path)),
                )
                &&& img.readdir(path) == img.list(id)
            },
            FileKind::File => img.readdir(path) == Err::<Seq<ItemView>, ErrorView>(
                ErrorView::NotADirectory(path),
            ),
        },
{
}

/// What a file reads: as many bytes as its size tells, each from the data block
/// that its position tells. A data block that is missing is told, the first one
/// if there are several.
pub proof fn law_read_bytes(img: ImageView, path: Seq<char>, k: int)
    requires
        img.bs() > 0,
        img.lookup(path) matches Ok(id) && img.inodes[id as int].kind == FileKind::File,
    ensures
        ({
            let id = img.lookup(path)->Ok_0;
            let node = img.inodes[id as int];
            let whole = forall|j: int|
                0 <= j && j * img.bs() < node.size ==> #[trigger] img.pointer(node, j)
                    != NULL_BLOCK;
            &&& img.read(path) is Ok <==> whole
            &&& img.read(path) matches Ok(data) ==> {
                &&& data.len() == node.size
                &&& forall|p: int|
                    0 <= p < data.len() ==> #[trigger] data[p] == img.blocks[img.pointer(
                        node,
                        p / img.bs(),
                    ) as int][p % img.bs()]
            }
            &&& (0 <= k && k * img.bs() < node.size && img.pointer(node, k) == NULL_BLOCK && forall|
                j: int,
            |
                0 <= j < k ==> #[trigger] img.pointer(node, j) != NULL_BLOCK) ==> img.read(path)
                == Err::<Seq<u8>, ErrorView>(
                ErrorView::Corrupt(
                    "missing block "@ + decimal(k as nat) + " for inode "@ + decimal(id as nat),
                ),
            )
        }),
{
    let id: u32 = img.lookup(path)->Ok_0;
    let node = img.inodes[id as int];
    let m = img.first_missing(node);
    img.lemma_covered_nonnegative(node);
    img.lemma_first_missing(node, 0);
    lemma_ceil_div(node.size as int, img.bs(), m);
    lemma_ceil_div(node.size as int, img.bs(), k);
    if m < img.covered(node) {
        assert(img.pointer(node, m) == NULL_BLOCK);
        assert(0 <= m && m * img.bs() < node.size);
    } else {
        assert forall|j: int| 0 <= j && j * img.bs() < node.size implies #[trigger] img.pointer(
            node,
            j,
        ) != NULL_BLOCK by {
            lemma_ceil_div(node.size as int, img.bs(), j);
        }
    }
    if 0 <= k && k * img.bs() < node.size && img.pointer(node, k) == NULL_BLOCK && forall|j: int|
        0 <= j < k ==> #[trigger] img.pointer(node, j) != NULL_BLOCK {
        if k < m {
            assert(img.pointer(node, k) != NULL_BLOCK);
        }
        if m < k {
            assert(img.pointer(node, m) != NULL_BLOCK);
        }
    }
}

/// When a write succeeds, said of the data alone: `n` blocks hold it and no
/// fewer do, of which a file has at most 12 and a quarter of the block size, and
/// they fit into the free blocks and those that the file has, together with the
/// block of pointers that more than 12 of them take.
pub proof fn law_write_succeeds(img: ImageView, path: Seq<char>, data: Seq<u8>, n: int)
    requires
        img.orderly(),
        img.stat(path) matches Ok(st) && st.kind == FileKind::File,
        0 <= n,
        data.len() <= n * img.bs(),
        n > 0 ==> (n - 1) * img.bs() < data.len(),
    ensures
        ({
            let (after, r) = img.write(path, data);
            let need = if n > 12 {
                n + 1
            } else {
                n
            };
            let have = img.free_blocks() + img.stat(path)->Ok_0.blocks;
            &&& r == if data.len() > 12 * img.bs() + (img.bs() / 4) * img.bs() {
                Err::<nat, ErrorView>(ErrorView::FileTooLarge)
            } else if need <= have {
                Ok::<nat, ErrorView>(data.len())
            } else {
                Err::<nat, ErrorView>(ErrorView::OutOfSpace)
            }
            &&& r is Ok ==> {
                &&& after.read(path) == Ok::<Seq<u8>, ErrorView>(data)
                &&& after.stat(path) is Ok
                &&& after.stat(path)->Ok_0.size == data.len()
                &&& after.stat(path)->Ok_0.blocks == need
                &&& after.stat(path)->Ok_0.inode == img.stat(path)->Ok_0.inode
                &&& after.stat(path)->Ok_0.kind == FileKind::File
                &&& after.free_blocks() == have - need
            }
        }),
{
    let len = data.len() as int;
    let bs = img.bs();
    law_write_outcome(img, path, data);
    lemma_ceil_div(len, bs, n);
    lemma_ceil_div(len, bs, n - 1);
    if n == 0 {
        lemma_ceil_div(len, bs, 0);
        assert(0 * bs == 0) by (nonlinear_arith);
    }
    assert(blocks_needed(len, bs) == if n > 12 {
        n + 1
    } else {
        n
    });
    if img.write(path, data).1 is Ok {
        law_read_after_write(img, path, data);
        let id: u32 = img.lookup(path)->Ok_0;
        let after = img.write(path, data).0;
        img.lemma_resolve_in_use(split(path)->Ok_0);
        img.lemma_write_file(id, data);
        img.lemma_file_changed_lookup(after, id as int, path);
        law_write_identity(img, path, data);
    }
}

/// A write, successful or not, keeps the id, the kind and the links of the file.
pub proof fn law_write_identity(img: ImageView, path: Seq<char>, data: Seq<u8>)
    requires
        img.orderly(),
        img.stat(path) matches Ok(st) && st.kind == FileKind::File,
    ensures
        ({
            let st = img.stat(path)->Ok_0;
            let new = img.write(path, data).0.stat(path);
            &&& new is Ok
            &&& new->Ok_0.inode == st.inode
            &&& new->Ok_0.kind == st.kind
            &&& new->Ok_0.link_count == st.link_count
        }),
{
    let id: u32 = img.lookup(path)->Ok_0;
    let after = img.write(path, data).0;
    img.lemma_resolve_in_use(split(path)->Ok_0);
    img.lemma_write_file(id, data);
    img.lemma_file_changed_lookup(after, id as int, path);
}

/// The outcome is the error `e`.
pub open spec fn fails<T>(r: Outcome<T>, e: ErrorView) -> bool {
    r matches Err(x) && x == e
}

/// When an entry can be made. The parent is a directory that can be read and
/// lists no such name, and the name has at most 60 bytes. There must be an inode
/// that is not in use. The parent must have an entry that is not in use, or be
/// able to grow: by a block that an entry of 68 bytes fits, up to 12 data blocks
/// and a quarter of the block size, and by a block of pointers with the
/// thirteenth.
pub proof fn law_make_succeeds(img: ImageView, path: Seq<char>, d: u32)
    requires
        img.sound(),
        split(path) matches Ok(all) && all.len() > 0 && encode_utf8(all.last()).len() <= 60
            && img.resolve(all.drop_last()) == Ok::<u32, ErrorView>(d),
        img.inodes[d as int].kind == FileKind::Directory,
        img.list(d) matches Ok(items) && !lists(items, split(path)->Ok_0.last()),
    ensures
        ({
            let node = img.inodes[d as int];
            let n = img.data_blocks(node);
            let cost: nat = if n >= 12 && node.indirect == NULL_BLOCK {
                2
            } else {
                1
            };
            let made = img.create(path).1;
            let made_dir = img.mkdir(path).1;
            if forall|i: int| 0 <= i < img.inodes.len() ==> (#[trigger] img.inodes[i]).allocated {
                fails(made, ErrorView::OutOfInodes) && fails(made_dir, ErrorView::OutOfInodes)
            } else if img.has_unused(d as int) {
                made is Ok && made_dir is Ok
            } else if n >= 12 + img.bs() / 4 {
                fails(made, ErrorView::FileTooLarge) && fails(made_dir, ErrorView::FileTooLarge)
            } else if img.bs() < 68 || img.free_blocks() < cost {
                fails(made, ErrorView::OutOfSpace) && fails(made_dir, ErrorView::OutOfSpace)
            } else {
                made is Ok && made_dir is Ok
            }
        }),
{
    let all = split(path)->Ok_0;
    let parts = all.drop_last();
    let name = all.last();
    let es = img.entries(img.inodes[d as int])->Ok_0;
    img.lemma_listing_first(es, name);
    img.lemma_resolve_allocated(parts);
    img.lemma_dir_blocks(d as int);
    law_make_outcome(img, path);
}

/// The same, said of a path whose name is not found: an entry can be made there
/// whatever the number of directories that lead to it.
pub proof fn law_make_where_missing(img: ImageView, path: Seq<char>)
    requires
        img.sound(),
        split(path) matches Ok(all) && all.len() > 0 && encode_utf8(all.last()).len() <= 60
            && img.lookup(path) == Err::<u32, ErrorView>(ErrorView::NotFound(all.last())),
        img.resolve(split(path)->Ok_0.drop_last()) matches Ok(d) && img.list(d) is Ok && {
            ||| img.has_unused(d as int)
            ||| {
                &&& img.bs() >= 68
                &&& img.data_blocks(img.inodes[d as int]) < 12 + img.bs() / 4
                &&& img.free_blocks() >= 2
            }
        },
        exists|i: int| 0 <= i < img.inodes.len() && !(#[trigger] img.inodes[i]).allocated,
    ensures
        img.create(path).1 is Ok,
        img.mkdir(path).1 is Ok,
{
    let all = split(path)->Ok_0;
    let d: u32 = img.resolve(all.drop_last())->Ok_0;
    law_resolve(img, all.drop_last(), all.last());
    assert(all.drop_last().push(all.last()) =~= all);
    law_make_succeeds(img, path, d);
}

/// Which inode a new entry gets. A file gets the first that is not in use, a
/// directory the last. It is empty, has one link, and keeps its number.
pub proof fn law_make_inode(img: ImageView, path: Seq<char>)
    requires
        img.sound(),
    ensures
        img.create(path) matches (after, Ok(node)) ==> {
            &&& after.lookup(path) == Ok::<u32, ErrorView>(node.id)
            &&& after.inodes[node.id as int] == node
            &&& node.id < img.inodes.len()
            &&& !img.inodes[node.id as int].allocated
            &&& forall|i: int| 0 <= i < node.id ==> (#[trigger] img.inodes[i]).allocated
            &&& node.kind == FileKind::File
            &&& node.allocated
            &&& node.size == 0
            &&& node.link_count == 1
            &&& node.indirect == NULL_BLOCK
            &&& node.direct.len() == 12
            &&& forall|k: int| 0 <= k < 12 ==> #[trigger] node.direct[k] == NULL_BLOCK
        },
        img.mkdir(path) matches (after, Ok(())) ==> {
            &&& after.lookup(path) is Ok
            &&& ({
                let x = after.lookup(path)->Ok_0;
                let node = after.inodes[x as int];
                &&& x < img.inodes.len()
                &&& !img.inodes[x as int].allocated
                &&& forall|i: int| x < i < img.inodes.len() ==> (#[trigger] img.inodes[i]).allocated
                &&& node.id == x
                &&& node.kind == FileKind::Directory
                &&& node.allocated
                &&& node.size == 0
                &&& node.link_count == 1
                &&& node.indirect == NULL_BLOCK
                &&& node.direct.len() == 12
                &&& forall|k: int| 0 <= k < 12 ==> #[trigger] node.direct[k] == NULL_BLOCK
            })
        },
{
    let bits = img.in_use();
    img.lemma_made(path, FileKind::File, ErrorView::InvalidPath(path));
    img.lemma_made(path, FileKind::Directory, ErrorView::AlreadyExists("/"@));
    img.lemma_vacant(FileKind::File);
    img.lemma_vacant(FileKind::Directory);
    lemma_first_clear(bits, 0);
    lemma_last_clear(bits, bits.len() as int);
    if img.create(path).1 is Ok {
        law_create_found(img, path);
        let x = img.create(path).1->Ok_0.id as int;
        assert(img.node_sound(img.vacant(FileKind::File)));
        assert forall|i: int| 0 <= i < x implies (#[trigger] img.inodes[i]).allocated by {
            assert(bits[i]);
        }
    }
    if img.mkdir(path).1 is Ok {
        law_mkdir_found(img, path);
        let x = img.mkdir(path).0.lookup(path)->Ok_0 as int;
        assert(img.node_sound(img.vacant(FileKind::Directory)));
        assert forall|i: int| x < i < img.inodes.len() implies (#[trigger] img.inodes[i]).allocated
            by {
            assert(bits[i]);
        }
    }
}

/// When an entry cannot be made, whatever the state of the tables, and what is
/// told. The image stays as it is.
pub proof fn law_make_refused(img: ImageView, path: Seq<char>)
    ensures
        split(path) is Err ==> {
            &&& img.create(path) == (
                img,
                Err::<InodeView, ErrorView>(ErrorView::InvalidPath(path)),
            )
            &&& img.mkdir(path) == (img, Err::<(), ErrorView>(ErrorView::InvalidPath(path)))
        },
        split(path) == Ok::<Seq<Seq<char>>, ErrorView>(Seq::empty()) ==> {
            &&& img.create(path) == (
                img,
                Err::<InodeView, ErrorView>(ErrorView::InvalidPath(path)),
            )
            &&& img.mkdir(path) == (img, Err::<(), ErrorView>(ErrorView::AlreadyExists("/"@)))
        },
        split(path) matches Ok(all) ==> all.len() > 0 ==> match img.resolve(all.drop_last()) {
            Err(e) => {
                &&& img.create(path) == (img, Err::<InodeView, ErrorView>(e))
                &&& img.mkdir(path) == (img, Err::<(), ErrorView>(e))
            },
            Ok(d) => {
                &&& img.inodes[d as int].kind == FileKind::File ==> {
                    &&& img.create(path) == (
                        img,
                        Err::<InodeView, ErrorView>(ErrorView::NotADirectory(path)),
                    )
                    &&& img.mkdir(path) == (
                        img,
                        Err::<(), ErrorView>(ErrorView::NotADirectory(path)),
                    )
                }
                &&& img.inodes[d as int].kind == FileKind::Directory ==> match img.list(d) {
                    Err(e) => {
                        &&& img.lookup(path) == Err::<u32, ErrorView>(e)
                        &&& fails(img.create(path).1, e)
                        &&& fails(img.mkdir(path).1, e)
                        &&& img.create(path).0 == img
                        &&& img.mkdir(path).0 == img
                    },
                    Ok(items) => if lists(items, all.last()) {
                        &&& img.create(path) == (
                            img,
                            Err::<InodeView, ErrorView>(ErrorView::AlreadyExists(path)),
                        )
                        &&& img.mkdir(path) == (
                            img,
                            Err::<(), ErrorView>(ErrorView::AlreadyExists(path)),
                        )
                    } else {
                        encode_utf8(all.last()).len() > 60 ==> {
                            &&& img.create(path) == (
                                img,
                                Err::<InodeView, ErrorView>(ErrorView::InvalidPath(path)),
                            )
                            &&& img.mkdir(path) == (
                                img,
                                Err::<(), ErrorView>(ErrorView::InvalidPath(path)),
                            )
                        }
                    },
                }
            },
        },
{
    if let Ok(all) = split(path) {
        if all.len() > 0 {
            law_resolve(img, all.drop_last(), all.last());
            assert(all.drop_last().push(all.last()) =~= all);
            if let Ok(d) = img.resolve(all.drop_last()) {
                if let Ok(es) = img.entries(img.inodes[d as int]) {
                    img.lemma_listing_first(es, all.last());
                }
            }
        }
    }
}

/// When nothing is removed, whatever the state of the tables, and what is told.
/// The image stays as it is.
pub proof fn law_remove_refused(img: ImageView, path: Seq<char>)
    ensures
        split(path) is Err ==> {
            &&& img.unlink(path) == (img, Err::<(), ErrorView>(ErrorView::InvalidPath(path)))
            &&& img.rmdir(path) == (img, Err::<(), ErrorView>(ErrorView::InvalidPath(path)))
        },
        split(path) == Ok::<Seq<Seq<char>>, ErrorView>(Seq::empty()) ==> {
            &&& img.unlink(path) == (img, Err::<(), ErrorView>(ErrorView::IsADirectory("/"@)))
            &&& img.rmdir(path) == (img, Err::<(), ErrorView>(ErrorView::IsADirectory("/"@)))
        },
        split(path) matches Ok(all) ==> all.len() > 0 ==> match img.resolve(all.drop_last()) {
            Err(e) => {
                &&& img.unlink(path) == (img, Err::<(), ErrorView>(e))
                &&& img.rmdir(path) == (img, Err::<(), ErrorView>(e))
            },
            Ok(d) => {
                &&& img.inodes[d as int].kind == FileKind::File ==> {
                    &&& img.unlink(path) == (
                        img,
                        Err::<(), ErrorView>(ErrorView::NotADirectory(path)),
                    )
                    &&& img.rmdir(path) == (
                        img,
                        Err::<(), ErrorView>(ErrorView::NotADirectory(path)),
                    )
                }
                &&& img.inodes[d as int].kind == FileKind::Directory ==> match img.list(d) {
                    Err(e) => {
                        &&& img.unlink(path) == (img, Err::<(), ErrorView>(e))
                        &&& img.rmdir(path) == (img, Err::<(), ErrorView>(e))
                    },
                    Ok(items) => if !lists(items, all.last()) {
                        &&& img.unlink(path) == (
                            img,
                            Err::<(), ErrorView>(ErrorView::NotFound(path)),
                        )
                        &&& img.rmdir(path) == (img, Err::<(), ErrorView>(ErrorView::NotFound(path)))
                    } else {
                        let x = img.lookup(path)->Ok_0;
                        &&& img.lookup(path) is Ok
                        &&& match img.inodes[x as int].kind {
                            FileKind::Directory => {
                                &&& img.unlink(path) == (
                                    img,
                                    Err::<(), ErrorView>(ErrorView::IsADirectory(path)),
                                )
                                &&& img.list(x) matches Err(e) ==> img.rmdir(path) == (
                                    img,
                                    Err::<(), ErrorView>(e),
                                )
                                &&& img.list(x) matches Ok(held) ==> held.len() > 0 ==> img.rmdir(
                                    path,
                                ) == (
                                    img,
                                    Err::<(), ErrorView>(
                                        ErrorView::AlreadyExists(path + " not empty"@),
                                    ),
                                )
                            },
                            FileKind::File => img.rmdir(path) == (
                                img,
                                Err::<(), ErrorView>(ErrorView::NotADirectory(path)),
                            ),
                        }
                    },
                }
            },
        },
{
    if let Ok(all) = split(path) {
        if all.len() > 0 {
            law_resolve(img, all.drop_last(), all.last());
            assert(all.drop_last().push(all.last()) =~= all);
            if let Ok(d) = img.resolve(all.drop_last()) {
                if let Ok(es) = img.entries(img.inodes[d as int]) {
                    img.lemma_listing_first(es, all.last());
                }
            }
        }
    }
}

/// Storing is writing, where there is something, and creating and writing, where
/// there is nothing yet.
pub proof fn law_store(img: ImageView, path: Seq<char>, data: Seq<u8>)
    ensures
        img.lookup(path) is Ok ==> img.store(path, data) == img.write(path, data),
        img.lookup(path) is Err ==> match img.create(path) {
            (made, Ok(_)) => img.store(path, data) == made.write(path, data),
            (made, Err(e)) => img.store(path, data) == (made, Err::<nat, ErrorView>(e)),
        },
{
}

/// What a successful store leaves at the path reads as the data.
pub proof fn law_read_after_store(img: ImageView, path: Seq<char>, data: Seq<u8>)
    requires
        img.sound(),
    ensures
        img.store(path, data).1 matches Ok(n) ==> {
            &&& n == data.len()
            &&& img.store(path, data).0.read(path) == Ok::<Seq<u8>, ErrorView>(data)
        },
{
    if img.store(path, data).1 is Ok {
        if img.lookup(path) is Ok {
            img.lemma_sound_orderly();
            law_read_after_write(img, path, data);
        } else {
            law_make_sound(img, path);
            img.create(path).0.lemma_sound_orderly();
            law_read_after_write(img.create(path).0, path, data);
        }
    }
}

/// In an image whose tables agree, every operation on any path stays inside the
/// image.
pub proof fn law_sound_stays_inside(img: ImageView, path: Seq<char>)
    requires
        img.sound(),
    ensures
        img.can_stat(path),
        img.can_read(path),
        img.can_readdir(path),
        img.can_make(path, FileKind::File),
        img.can_make(path, FileKind::Directory),
        img.can_write(path),
        img.can_store(path),
        img.can_unlink(path),
        img.can_rmdir(path),
        img.can_check(),
        img.in_range(),
{
    img.lemma_sound_in_range();
    img.lemma_can_check();
}

/// The bytes of a file that was written stand in its data blocks, in order, and
/// the rest of the last block is filled with zeros. The file has no data block
/// more.
pub proof fn law_write_layout(img: ImageView, path: Seq<char>, data: Seq<u8>, p: int)
    requires
        img.orderly(),
        img.stat(path) matches Ok(st) && st.kind == FileKind::File,
        img.write(path, data).1 is Ok,
        0 <= p,
    ensures
        ({
            let after = img.write(path, data).0;
            let node = after.inodes[after.lookup(path)->Ok_0 as int];
            let k = p / img.bs();
            let b = after.pointer(node, k);
            &&& after.lookup(path) is Ok
            &&& b != NULL_BLOCK <==> k * img.bs() < data.len()
            &&& b != NULL_BLOCK ==> b < after.blocks.len() && after.blocks[b as int][p % img.bs()]
                == if p < data.len() {
                data[p]
            } else {
                0u8
            }
        }),
{
    let id: u32 = img.lookup(path)->Ok_0;
    let i = id as int;
    let bs = img.bs();
    let after = img.write(path, data).0;
    img.lemma_resolve_in_use(split(path)->Ok_0);
    img.lemma_write_file(id, data);
    img.lemma_file_changed_lookup(after, i, path);
    let cleared = img.truncated(i);
    img.lemma_truncated(i);
    let n = ceil_div(data.len() as int, bs);
    lemma_ceil_div(data.len() as int, bs, 0);
    cleared.lemma_write_blocks(i, data, n);
    let (stored, r1) = cleared.write_blocks(i, data, n);
    let k = p / bs;
    vstd::arithmetic::div_mod::lemma_fundamental_div_mod(p, bs);
    vstd::arithmetic::mul::lemma_mul_is_commutative(k, bs);
    assert(k >= 0) by (nonlinear_arith)
        requires
            p == k * bs + p % bs,
            0 <= p,
            0 <= p % bs < bs,
    ;
    lemma_ceil_div(data.len() as int, bs, k);
    let b = stored.pointer(stored.inodes[i], k);
    assert(after.pointer(after.inodes[i], k) == b);
    if k < n {
        stored.lemma_pointer_bound(i, k);
    }
}

/// An entry that cannot be made for want of space leaves every name as it is,
/// and the inode that it was to get in use.
pub proof fn law_failed_make(img: ImageView, path: Seq<char>, d: u32, q: Seq<char>, i: int)
    requires
        img.sound(),
        img.bs() >= 68,
        0 <= i < img.inodes.len(),
        split(path) matches Ok(all) && all.len() > 0 && encode_utf8(all.last()).len() <= 60
            && img.resolve(all.drop_last()) == Ok::<u32, ErrorView>(d),
        img.inodes[d as int].kind == FileKind::Directory,
        img.list(d) matches Ok(items) && !lists(items, split(path)->Ok_0.last()),
    ensures
        img.create(path) matches (after, Err(e)) ==> {
            &&& img.lookup(q) matches Ok(x) ==> after.lookup(q) == Ok::<u32, ErrorView>(x)
            &&& after.lookup(q) matches Ok(x) ==> img.lookup(q) == Ok::<u32, ErrorView>(x)
            &&& after.inodes[i].allocated <==> img.inodes[i].allocated || {
                &&& e == ErrorView::OutOfSpace || e == ErrorView::FileTooLarge
                &&& used_before(img, i)
            }
        },
        img.mkdir(path) matches (after, Err(e)) ==> {
            &&& img.lookup(q) matches Ok(x) ==> after.lookup(q) == Ok::<u32, ErrorView>(x)
            &&& after.lookup(q) matches Ok(x) ==> img.lookup(q) == Ok::<u32, ErrorView>(x)
            &&& after.inodes[i].allocated <==> img.inodes[i].allocated || {
                &&& e == ErrorView::OutOfSpace || e == ErrorView::FileTooLarge
                &&& used_behind(img, i)
            }
        },
{
    let es = img.entries(img.inodes[d as int])->Ok_0;
    img.lemma_listing_first(es, split(path)->Ok_0.last());
    img.lemma_failed_make(path, FileKind::File, ErrorView::InvalidPath(path), q, i);
    img.lemma_failed_make(path, FileKind::Directory, ErrorView::AlreadyExists("/"@), q, i);
}

impl ImageView {
    /// What an entry that cannot be made leaves behind.
    proof fn lemma_failed_make(
        self,
        path: Seq<char>,
        kind: FileKind,
        at_root: ErrorView,
        q: Seq<char>,
        i: int,
    )
        requires
            self.sound(),
            self.bs() >= 68,
            0 <= i < self.inodes.len(),
            split_last(path) matches Ok(Some((parts, name))) && self.vacancy(
                parts,
                name,
                path,
            ) is Ok && encode_utf8(name).len() <= 60,
        ensures
            self.make(path, kind, at_root) matches (after, Err(e)) ==> {
                &&& self.lookup(q) matches Ok(x) ==> after.lookup(q) == Ok::<u32, ErrorView>(x)
                &&& after.lookup(q) matches Ok(x) ==> self.lookup(q) == Ok::<u32, ErrorView>(x)
                &&& after.inodes[i].allocated <==> self.inodes[i].allocated || {
                    &&& e == ErrorView::OutOfSpace || e == ErrorView::FileTooLarge
                    &&& if kind == FileKind::File {
                        used_before(self, i)
                    } else {
                        used_behind(self, i)
                    }
                }
            },
    {
        let (after, r) = self.make(path, kind, at_root);
        self.lemma_make(path, kind, at_root);
        self.lemma_made_names(path, kind, at_root, q);
        if r is Err {
            let (parts, name) = split_last(path)->Ok_0->Some_0;
            let d: u32 = self.vacancy(parts, name, path)->Ok_0;
            let x = self.vacant(kind);
            law_claim_inode(self, kind);
            self.lemma_make_in(d, name, kind);
            self.lemma_make_space(d, name, kind);
            self.lemma_claim_inode(kind);
            if self.claim_inode(kind).1 is Ok {
                let mid = self.claim_inode(kind).0;
                assert(!self.inodes[x].allocated);
                self.lemma_same_places_entries(mid, d as int);
                mid.lemma_add_sizes(d as int, name, self.claim_inode(kind).1->Ok_0, i);
                if !self.inodes[i].allocated && i != x {
                    assert(!used_before(self, i) || kind != FileKind::File);
                    assert(!used_behind(self, i) || kind == FileKind::File);
                }
            }
        }
    }
}

} // verus!
