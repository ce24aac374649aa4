# gridfs

An in-memory, FAT-style filesystem in safe Rust, verified with Verus:
superblock, inode table, free-block bitmap, direct and single-indirect block
pointers, and one binary image that holds them all.

```rust
use gridfs::Fs;

let mut fs = Fs::new(512, 64)?;
fs.mkdir("/docs")?;
fs.create("/docs/notes.txt")?;
fs.write("/docs/notes.txt", b"hello, gridfs!")?;
assert_eq!(fs.read("/docs/notes.txt")?, b"hello, gridfs!");

// Persist and reload.
let mut buf = Vec::new();
fs.dump_image(&mut buf)?;
let reloaded = Fs::load_image(&mut &buf[..])?;
assert_eq!(reloaded.read("/docs/notes.txt")?, b"hello, gridfs!");
```

The same from the shell:

```bash
gridfs-cli mkfs disk.img --block-size 512 --num-blocks 64
# created disk.img (64 blocks of 512 bytes)

gridfs-cli -i disk.img mkdir /docs
gridfs-cli -i disk.img write /docs/hello.txt "hello, gridfs"
gridfs-cli -i disk.img ls /docs
# -    1 hello.txt
gridfs-cli -i disk.img cat /docs/hello.txt
# hello, gridfs
gridfs-cli -i disk.img stat /docs/hello.txt
# inode=1 kind=File size=13 blocks=1 links=1
gridfs-cli -i disk.img fsck
# clean
```

Files take the first free inode of the table, directories the last.

## Layout

- `src/block.rs`, `src/inode.rs`, `src/codec.rs`, `src/path.rs`, `src/text.rs`,
  `src/error.rs`: the block layer, inodes, integers in bytes, paths, texts and
  errors.
- `src/fs/`: the filesystem handle `Fs` and its operations. `guard.rs` tells
  whether an operation on a loaded image stays inside that image.
- `src/model/`: the image as a mathematical value, and every operation as a
  function on such values. The contracts in `src/fs/` refer to it.
- `src/laws/`: what the operations promise together: what is read is what was
  written, nothing else changes, names appear and disappear one at a time,
  a removal undoes a making, listings agree with `stat`, space is accounted
  for, and a healthy image passes the consistency check.
- `src/show.rs`: the lines that the command-line shell prints.
- `app/`: `gridfs-cli`, with `mkfs`, `ls`, `cat`, `write`, `rm`, `mkdir`,
  `stat` and `fsck`.

## Image format

```text
+--------------+----------------+----------------+----------------------+
|  Superblock  |  Inode Table   |  Block Bitmap  |     Data Blocks      |
|   24 bytes   |  256 * 64 B    |  ceil(N/8) B   |   N * block_size B   |
+--------------+----------------+----------------+----------------------+
   MAGIC=GRIDFS01    fixed pool      packed LSB-first   raw user data
```

All integers are little-endian. The record of an inode holds its kind, a flag
for being in use, its link count, its size, 12 direct block pointers and one
single-indirect pointer. Its id is its position in the table.

## Limitations

- Single-threaded, no journaling, no symlinks, no permissions, no times.
- 256 inodes; blocks of at least 64 bytes. A directory entry takes 68 bytes, so
  that nothing can be made where blocks have fewer.
- A file holds at most `12 * block_size + (block_size / 4) * block_size` bytes.
- A name has at most 60 bytes, what a directory entry holds. `create` and
  `mkdir` refuse a longer one.
- A file or directory that cannot be entered into its parent for want of space
  leaves an inode behind that `fsck` reports.
