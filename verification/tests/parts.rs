//! The block layer and the codecs.

use gridfs::block::{DirEntry, Image, DIR_ENTRY_SIZE, INODE_COUNT, MAGIC, MAX_NAME_LEN};
use gridfs::codec::{
    get_u16, get_u32, get_u64, push_u16, push_u32, push_u64, put_bytes, put_u32, put_zeros,
};
use gridfs::inode::{DIRECT_POINTERS, NULL_BLOCK};
use gridfs::text::{decimal_text, joined, same_text, text_of_bytes};
use gridfs::{Entry, FileKind, FsError, FsckReport, Inode, Stat};

#[test]
fn constants() {
    assert_eq!(&MAGIC, b"GRIDFS01");
    assert_eq!(INODE_COUNT, 256);
    assert_eq!(MAX_NAME_LEN, 60);
    assert_eq!(DIR_ENTRY_SIZE, 68);
    assert_eq!(DIRECT_POINTERS, 12);
    assert_eq!(NULL_BLOCK, u32::MAX);
}

#[test]
fn entries_encode_and_decode() {
    let entry = DirEntry {
        inode: 0x0102_0304,
        used: true,
        name_len: 5,
        name: "héllo".chars().take(4).collect::<String>(),
    };
    assert_eq!(entry.name.len(), 5);
    let mut buf = [0xaau8; 70];
    entry.encode(&mut buf);
    assert_eq!(&buf[0..8], &[4, 3, 2, 1, 1, 5, 0, 0]);
    assert_eq!(&buf[8..13], "héll".as_bytes());
    assert!(buf[13..68].iter().all(|b| *b == 0));
    assert_eq!(&buf[68..], &[0xaa, 0xaa]);
    assert_eq!(DirEntry::decode(&buf).unwrap(), entry);
    let mut buf = [1u8; 68];
    DirEntry::empty().encode(&mut buf);
    assert_eq!(buf, [0u8; 68]);
    assert_eq!(DirEntry::decode(&buf).unwrap(), DirEntry::empty());
}

#[test]
fn entries_that_do_not_decode() {
    assert_eq!(
        DirEntry::decode(&[0u8; 67]).unwrap_err().message(),
        "corrupt image: directory entry truncated"
    );
    let mut buf = [0u8; 68];
    buf[5] = 61;
    assert_eq!(
        DirEntry::decode(&buf).unwrap_err().message(),
        "corrupt image: directory name overflows slot"
    );
    buf[5] = 2;
    buf[8] = 0xc3;
    assert_eq!(
        DirEntry::decode(&buf).unwrap_err().message(),
        "corrupt image: directory name not utf-8"
    );
    buf[9] = 0xa9;
    assert_eq!(DirEntry::decode(&buf).unwrap().name, "é");
}

#[test]
fn long_names_are_cut() {
    let entry = DirEntry {
        inode: 1,
        used: true,
        name_len: 61,
        name: "z".repeat(61),
    };
    let mut buf = [0u8; 68];
    entry.encode(&mut buf);
    assert_eq!(&buf[8..], &[b'z'; 60]);
    assert!(DirEntry::decode(&buf).is_err());
}

#[test]
fn kinds_and_bytes() {
    assert_eq!(FileKind::File.to_byte(), 1);
    assert_eq!(FileKind::Directory.to_byte(), 2);
    assert_eq!(FileKind::from_byte(1), Some(FileKind::File));
    assert_eq!(FileKind::from_byte(2), Some(FileKind::Directory));
    assert_eq!(FileKind::from_byte(0), None);
    assert_eq!(FileKind::from_byte(3), None);
}

#[test]
fn placeholder_inodes() {
    let node = Inode::empty(9);
    assert_eq!((node.id, node.kind, node.size), (9, FileKind::File, 0));
    assert_eq!((node.link_count, node.allocated), (0, false));
    assert_eq!((node.direct, node.indirect), ([NULL_BLOCK; 12], NULL_BLOCK));
    let node = Inode::new(9, FileKind::Directory);
    assert_eq!((node.link_count, node.allocated), (1, true));
    assert_eq!(node.kind, FileKind::Directory);
}

#[test]
fn blocks_are_claimed_in_order_and_zeroed() {
    let mut img = Image::new(68, 3).unwrap();
    assert_eq!(img.alloc_block().unwrap(), 0);
    assert_eq!(img.alloc_block().unwrap(), 1);
    img.blocks[0] = vec![5u8; 68];
    img.free_block(0);
    img.free_block(77);
    assert_eq!(img.bitmap, vec![false, true, false]);
    assert_eq!(img.alloc_block().unwrap(), 0);
    assert_eq!(img.blocks[0], vec![0u8; 68]);
    assert_eq!(img.alloc_block().unwrap(), 2);
    assert!(matches!(img.alloc_block(), Err(FsError::OutOfSpace)));
}

#[test]
fn inodes_are_claimed_in_order() {
    let mut img = Image::new(68, 3).unwrap();
    assert_eq!(img.alloc_inode(FileKind::File).unwrap(), 1);
    assert_eq!(img.alloc_inode(FileKind::Directory).unwrap(), 2);
    img.inodes[1].direct[3] = 2;
    img.bitmap[2] = true;
    assert_eq!(img.gather_pointers(1), vec![2]);
    img.free_inode(1);
    assert!(!img.bitmap[2]);
    assert!(!img.inodes[1].allocated);
    assert!(img.gather_pointers(1).is_empty());
    assert_eq!(img.alloc_inode(FileKind::File).unwrap(), 1);
}

#[test]
fn directories_are_claimed_from_the_end() {
    let mut img = Image::new(128, 3).unwrap();
    assert_eq!(img.vacant_inode(FileKind::Directory), 255);
    assert_eq!(img.claim_inode(FileKind::Directory).unwrap(), 255);
    assert_eq!(img.claim_inode(FileKind::File).unwrap(), 1);
    assert_eq!(img.claim_inode(FileKind::Directory).unwrap(), 254);
    assert_eq!(img.inodes[254].kind, FileKind::Directory);
    img.free_inode(255);
    assert_eq!(img.claim_inode(FileKind::Directory).unwrap(), 255);
    for id in 2..254 {
        assert_eq!(img.claim_inode(FileKind::File).unwrap(), id);
    }
    assert_eq!(img.vacant_inode(FileKind::File), 256);
    assert_eq!(img.vacant_inode(FileKind::Directory), 256);
    assert!(matches!(img.claim_inode(FileKind::File), Err(FsError::OutOfInodes)));
    assert!(matches!(img.claim_inode(FileKind::Directory), Err(FsError::OutOfInodes)));
}

#[test]
fn pointers_are_gathered_with_the_indirect_block() {
    let mut img = Image::new(68, 8).unwrap();
    img.inodes[0].direct[0] = 4;
    img.inodes[0].direct[11] = 1;
    img.inodes[0].indirect = 3;
    img.blocks[3] = vec![0xff; 68];
    img.blocks[3][4..8].copy_from_slice(&6u32.to_le_bytes());
    img.blocks[3][64..68].copy_from_slice(&900u32.to_le_bytes());
    assert_eq!(img.gather_pointers(0), vec![4, 1, 3, 6, 900]);
}

#[test]
fn integers_are_little_endian() {
    let mut out = Vec::new();
    push_u16(&mut out, 0x0102);
    push_u32(&mut out, 0x0304_0506);
    push_u64(&mut out, 0x0708_090a_0b0c_0d0e);
    assert_eq!(out, [2, 1, 6, 5, 4, 3, 14, 13, 12, 11, 10, 9, 8, 7]);
    assert_eq!(get_u16(&out, 0), 0x0102);
    assert_eq!(get_u32(&out, 2), 0x0304_0506);
    assert_eq!(get_u64(&out, 6), 0x0708_090a_0b0c_0d0e);
    put_u32(&mut out, 1, 0xdead_beef);
    assert_eq!(&out[..6], &[2, 0xef, 0xbe, 0xad, 0xde, 3]);
    put_bytes(&mut out, 12, &[1, 2]);
    put_zeros(&mut out, 0, 2);
    assert_eq!(out, [0, 0, 0xbe, 0xad, 0xde, 3, 14, 13, 12, 11, 10, 9, 1, 2]);
}

#[test]
fn texts() {
    assert_eq!(decimal_text(0), "0");
    assert_eq!(decimal_text(9), "9");
    assert_eq!(decimal_text(10), "10");
    assert_eq!(decimal_text(u64::MAX), "18446744073709551615");
    assert_eq!(joined("a", "bc"), "abc");
    assert!(same_text("né", "né"));
    assert!(!same_text("a", "b"));
    assert!(!same_text("a", "ab"));
    assert_eq!(text_of_bytes("né".as_bytes()).unwrap(), "né");
    assert!(text_of_bytes(&[0xff]).is_none());
    assert_eq!(text_of_bytes(b"").unwrap(), "");
}

#[test]
fn reports() {
    assert!(FsckReport::default().is_clean());
    let report = FsckReport {
        issues: vec!["x".to_string()],
    };
    assert!(!report.is_clean());
}

#[test]
fn messages() {
    let s = || "x".to_string();
    for (e, want) in [
        (FsError::InvalidPath(s()), "invalid path: x"),
        (FsError::NotFound(s()), "no such file or directory: x"),
        (FsError::AlreadyExists(s()), "file already exists: x"),
        (FsError::NotADirectory(s()), "not a directory: x"),
        (FsError::IsADirectory(s()), "is a directory: x"),
        (FsError::OutOfInodes, "inode table is full"),
        (FsError::OutOfSpace, "no space left on device"),
        (FsError::FileTooLarge, "file exceeds maximum addressable size"),
        (FsError::Corrupt(s()), "corrupt image: x"),
        (FsError::Io(s()), "I/O error: x"),
    ] {
        assert_eq!(e.message(), want);
    }
}

#[test]
fn lines() {
    let entry = |inode, kind| Entry {
        name: "hello.txt".to_string(),
        inode,
        kind,
    };
    assert_eq!(entry(1, FileKind::File).line(), "-    1 hello.txt");
    assert_eq!(entry(42, FileKind::Directory).line(), "d   42 hello.txt");
    assert_eq!(entry(999, FileKind::File).line(), "-  999 hello.txt");
    assert_eq!(entry(1000, FileKind::File).line(), "- 1000 hello.txt");
    assert_eq!(entry(123_456, FileKind::File).line(), "- 123456 hello.txt");
    let stat = Stat {
        inode: 1,
        kind: FileKind::File,
        size: 13,
        link_count: 1,
        blocks: 1,
    };
    assert_eq!(stat.line(), "inode=1 kind=File size=13 blocks=1 links=1");
    let stat = Stat {
        kind: FileKind::Directory,
        ..stat
    };
    assert_eq!(
        stat.line(),
        "inode=1 kind=Directory size=13 blocks=1 links=1"
    );
    assert_eq!(FsckReport::default().into_lines(), vec!["clean"]);
    let report = FsckReport {
        issues: vec!["a".to_string(), "b".to_string()],
    };
    assert_eq!(report.into_lines(), vec!["a", "b"]);
}
