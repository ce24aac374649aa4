//! The serialized form of an image, and what the check finds in damaged ones.

use gridfs::{FileKind, Fs, FsError};

const TABLE: usize = 24;
const BITMAP: usize = 24 + 256 * 64;

/// An image of 16 blocks of 128 bytes with a directory and two files: the
/// root (inode 0) has blocks 0 and 5, `/d` (inode 255) has block 1, `/d/f`
/// (inode 1) blocks 2, 3 and 4, and `/g` (inode 2) block 6.
fn sample() -> Vec<u8> {
    let mut fs = Fs::new(128, 16).unwrap();
    fs.mkdir("/d").unwrap();
    fs.create("/d/f").unwrap();
    fs.write("/d/f", &vec![7u8; 300]).unwrap();
    fs.create("/g").unwrap();
    fs.write("/g", b"gg").unwrap();
    let mut buf = Vec::new();
    fs.dump_image(&mut buf).unwrap();
    buf
}

fn node(i: usize) -> usize {
    TABLE + 64 * i
}

fn block(b: usize) -> usize {
    BITMAP + 2 + 128 * b
}

fn load(bytes: &[u8]) -> Fs {
    Fs::load_image(&mut &bytes[..]).unwrap()
}

fn error(bytes: &[u8]) -> String {
    match Fs::load_image(&mut &bytes[..]) {
        Ok(_) => panic!("loaded"),
        Err(e) => e.message(),
    }
}

#[test]
fn the_format_is_as_documented() {
    let bytes = sample();
    assert_eq!(bytes.len(), 24 + 256 * 64 + 2 + 16 * 128);
    assert_eq!(&bytes[0..8], b"GRIDFS01");
    assert_eq!(&bytes[8..12], &128u32.to_le_bytes());
    assert_eq!(&bytes[12..16], &16u32.to_le_bytes());
    assert_eq!(&bytes[16..20], &256u32.to_le_bytes());
    assert_eq!(&bytes[20..24], &0u32.to_le_bytes());
    // Inode 1: kind, flag, links, size, direct pointers, indirect block.
    let file = &bytes[node(1)..node(2)];
    assert_eq!(&file[0..4], &[1, 1, 1, 0]);
    assert_eq!(&file[4..12], &300u64.to_le_bytes());
    assert_eq!(&file[12..16], &2u32.to_le_bytes());
    assert_eq!(&file[16..20], &3u32.to_le_bytes());
    assert_eq!(&file[20..24], &4u32.to_le_bytes());
    assert_eq!(&file[24..64], &[0xff; 40]);
    // Inode 255 is a directory, inode 3 is not in use.
    assert_eq!(bytes[node(255)], 2);
    assert_eq!(&bytes[node(3)..node(3) + 4], &[1, 0, 0, 0]);
    // Seven blocks are in use, from the lowest bit on.
    assert_eq!(&bytes[BITMAP..BITMAP + 2], &[0b0111_1111, 0]);
    // The entry of `/d/f`.
    let entry = &bytes[block(1)..block(1) + 68];
    assert_eq!(&entry[0..9], &[1, 0, 0, 0, 1, 1, 0, 0, b'f']);
    assert!(entry[9..].iter().all(|b| *b == 0));
    assert_eq!(&bytes[block(6)..block(6) + 3], b"gg\0");
}

#[test]
fn the_bitmap_is_packed_from_the_lowest_bit() {
    let mut fs = Fs::new(128, 20).unwrap();
    fs.create("/f").unwrap();
    fs.write("/f", &vec![1u8; 128 * 9]).unwrap();
    let mut bytes = Vec::new();
    fs.dump_image(&mut bytes).unwrap();
    assert_eq!(&bytes[BITMAP..BITMAP + 3], &[0xff, 0b11, 0]);
    assert_eq!(bytes.len(), BITMAP + 3 + 20 * 128);
}

#[test]
fn dumping_appends_and_loading_leaves_the_rest() {
    let bytes = sample();
    let mut twice = b"head".to_vec();
    load(&bytes).dump_image(&mut twice).unwrap();
    assert_eq!(&twice[..4], b"head");
    assert_eq!(&twice[4..], &bytes[..]);
    twice.extend_from_slice(b"tail");
    let mut reader = &twice[4..];
    let fs = Fs::load_image(&mut reader).unwrap();
    assert_eq!(reader, b"tail");
    assert_eq!(fs.read("/g").unwrap(), b"gg");
    assert_eq!(fs.read("/d/f").unwrap(), vec![7u8; 300]);
    assert_eq!(fs.stat("/d").unwrap().kind, FileKind::Directory);
    assert!(fs.fsck().is_clean());
}

#[test]
fn a_short_image_is_an_io_error() {
    let bytes = sample();
    for n in [0, 7, 8, 23, 24, 25, 26, 87, BITMAP, BITMAP + 1, bytes.len() - 1] {
        assert_eq!(error(&bytes[..n]), "I/O error: failed to fill whole buffer");
    }
    let mut reader = &bytes[..100];
    assert!(matches!(
        Fs::load_image(&mut reader),
        Err(FsError::Io(_))
    ));
    assert!(reader.is_empty());
}

#[test]
fn a_wrong_header_is_corrupt() {
    let mut bytes = sample();
    bytes[7] = b'2';
    assert_eq!(error(&bytes), "corrupt image: bad magic");
    let mut bytes = sample();
    bytes[17] = 2;
    assert_eq!(error(&bytes), "corrupt image: inode count mismatch");
    let mut bytes = sample();
    bytes[node(5)] = 3;
    assert_eq!(error(&bytes), "corrupt image: bad file kind");
    let mut reader = &bytes[..];
    assert!(Fs::load_image(&mut reader).is_err());
    assert_eq!(reader.len(), bytes.len() - (node(5) + 2));
}

#[test]
fn any_flag_but_zero_means_in_use() {
    let mut bytes = sample();
    bytes[node(1) + 1] = 200;
    let fs = load(&bytes);
    assert_eq!(fs.read("/d/f").unwrap().len(), 300);
    assert!(fs.fsck().is_clean());
    let mut again = Vec::new();
    fs.dump_image(&mut again).unwrap();
    assert_eq!(again, sample());
}

#[test]
fn fsck_finds_bitmap_mismatches() {
    let mut bytes = sample();
    bytes[BITMAP] = 0b0111_1011;
    bytes[BITMAP + 1] = 0b1000_0001;
    assert_eq!(
        load(&bytes).fsck().issues,
        vec![
            "block 2 used but bitmap marks free".to_string(),
            "block 8 marked used but unreferenced".to_string(),
            "block 15 marked used but unreferenced".to_string(),
        ]
    );
}

#[test]
fn fsck_finds_shared_and_stray_pointers() {
    let mut bytes = sample();
    // The second block of `/d/f` becomes that of `/g`, its third block lies
    // outside.
    bytes[node(1) + 16] = 6;
    bytes[node(1) + 20] = 16;
    let fs = load(&bytes);
    assert!(fs.can_fsck());
    assert_eq!(
        fs.fsck().issues,
        vec![
            "inode 1 points outside data area".to_string(),
            "block 6 referenced multiple times".to_string(),
            "block 3 marked used but unreferenced".to_string(),
            "block 4 marked used but unreferenced".to_string(),
        ]
    );
    assert!(!fs.can_read("/d/f"));
    assert!(fs.can_read("/g"));
    assert!(fs.can_stat("/d/f"));
    assert_eq!(fs.stat("/d/f").unwrap().blocks, 3);
}

#[test]
fn fsck_finds_bad_entries() {
    let mut bytes = sample();
    // `/g` is no longer in use; the entry of `/d/f` names no inode at all.
    bytes[node(2) + 1] = 0;
    bytes[block(1) + 1] = 1;
    let fs = load(&bytes);
    assert_eq!(
        fs.fsck().issues,
        vec![
            "directory entry points to invalid inode 257".to_string(),
            "entry 'g' points at unallocated inode".to_string(),
            "inode 1 allocated but unreachable".to_string(),
            "block 6 marked used but unreferenced".to_string(),
        ]
    );
    assert!(!fs.can_read("/d/f"));
    assert!(!fs.can_readdir("/d"));
    assert!(!fs.can_unlink("/d/f"));
    assert!(fs.can_readdir("/"));
}

#[test]
fn fsck_finds_directories_that_cannot_be_read() {
    let mut bytes = sample();
    // The directory `/d` loses its block.
    for i in 0..4 {
        bytes[node(255) + 12 + i] = 0xff;
    }
    let fs = load(&bytes);
    assert_eq!(
        fs.fsck().issues,
        vec![
            "failed to read directory inode 255: corrupt image: missing directory block".to_string(),
            "inode 1 allocated but unreachable".to_string(),
            "block 1 marked used but unreferenced".to_string(),
        ]
    );
    assert_eq!(
        fs.readdir("/d").unwrap_err().message(),
        "corrupt image: missing directory block"
    );
    let mut bytes = sample();
    bytes[block(1) + 8] = 0xff;
    assert_eq!(
        load(&bytes).readdir("/d").unwrap_err().message(),
        "corrupt image: directory name not utf-8"
    );
}

#[test]
fn fsck_walks_a_cycle_once() {
    let mut bytes = sample();
    // The entry of `/d/f` leads back to `/d`.
    bytes[block(1)] = 255;
    assert_eq!(
        load(&bytes).fsck().issues,
        vec!["inode 1 allocated but unreachable".to_string()]
    );
}

#[test]
fn a_file_with_a_missing_block_cannot_be_read() {
    let mut bytes = sample();
    for i in 0..4 {
        bytes[node(1) + 16 + i] = 0xff;
    }
    assert_eq!(
        load(&bytes).read("/d/f").unwrap_err().message(),
        "corrupt image: missing block 1 for inode 1"
    );
}

#[test]
fn stray_pointers_outside_are_told_apart() {
    let mut bytes = sample();
    // The directory `/d` points outside the image.
    bytes[node(255) + 12] = 77;
    let fs = load(&bytes);
    assert!(fs.can_stat("/d"));
    assert!(!fs.can_stat("/d/f"));
    assert!(!fs.can_create("/d/x"));
    assert!(fs.can_create("/x"));
    assert!(!fs.can_mkdir("/d/x"));
    assert!(!fs.can_rmdir("/d"));
    assert!(!fs.can_fsck());
    let mut bytes = sample();
    // `/g` has an indirect block outside the image.
    bytes[node(2) + 60..node(3)].copy_from_slice(&99u32.to_le_bytes());
    let fs = load(&bytes);
    assert!(fs.can_read("/g"));
    assert!(!fs.can_stat("/g"));
    assert!(!fs.can_write("/g"));
    assert!(!fs.can_unlink("/g"));
    assert!(!fs.can_fsck());
}

#[test]
fn writes_on_a_clean_image_keep_it_clean() {
    // A link count that the check does not look at.
    let mut bytes = sample();
    bytes[node(2) + 2] = 9;
    let mut fs = load(&bytes);
    assert!(fs.fsck().is_clean());
    let listed = fs.readdir("/d").unwrap();
    let other = fs.stat("/d/f").unwrap();
    for n in [0usize, 1, 128, 129, 900] {
        assert!(fs.can_write("/g"));
        assert_eq!(fs.write("/g", &vec![n as u8; n]).unwrap(), n);
        assert_eq!(fs.read("/g").unwrap(), vec![n as u8; n]);
        let st = fs.stat("/g").unwrap();
        assert_eq!(st.size, n as u64);
        assert_eq!(st.blocks as usize, (n + 127) / 128);
        assert_eq!(fs.read("/d/f").unwrap(), vec![7u8; 300]);
        assert_eq!(fs.stat("/d/f").unwrap(), other);
        assert_eq!(fs.readdir("/d").unwrap(), listed);
        assert!(fs.fsck().is_clean());
    }
    for n in [2048usize, 6000] {
        let err = fs.write("/g", &vec![1u8; n]).unwrap_err();
        assert!(matches!(err, FsError::OutOfSpace | FsError::FileTooLarge));
        assert_eq!(fs.read("/g").unwrap(), b"");
        assert_eq!(fs.stat("/g").unwrap().size, 0);
        assert_eq!(fs.read("/d/f").unwrap(), vec![7u8; 300]);
        assert!(fs.fsck().is_clean());
    }
}

#[test]
fn the_size_is_as_documented() {
    for (block_size, num_blocks, size) in
        [(128, 8, 17433), (64, 1, 16473), (512, 64, 49184), (100, 9, 17310)]
    {
        let fs = Fs::new(block_size, num_blocks).unwrap();
        let mut bytes = Vec::new();
        assert!(fs.dump_image(&mut bytes).is_ok());
        assert_eq!(bytes.len(), size);
    }
}

#[test]
fn the_id_of_an_inode_is_its_position() {
    let fs = load(&sample());
    for (path, id) in [("/", 0), ("/d", 255), ("/d/f", 1), ("/g", 2)] {
        assert_eq!(fs.stat(path).unwrap().inode, id);
    }
    let mut fs = fs;
    assert_eq!(fs.create("/h").unwrap().id, 3);
    fs.mkdir("/e").unwrap();
    assert_eq!(fs.stat("/e").unwrap().inode, 254);
}

#[test]
fn a_file_of_blocks_without_bytes() {
    // The root is a file, of eight blocks that have no bytes.
    let mut bytes = sample()[..BITMAP].to_vec();
    bytes[8..12].copy_from_slice(&0u32.to_le_bytes());
    bytes[12..16].copy_from_slice(&8u32.to_le_bytes());
    bytes[node(0)] = 1;
    bytes.push(0b0010_0001);
    // It has two of them, and no number of them makes up its size.
    let fs = load(&bytes);
    assert!(fs.can_read("/"));
    assert_eq!(
        fs.read("/").unwrap_err().message(),
        "corrupt image: missing block 2 for inode 0"
    );
    let mut outside = bytes.clone();
    outside[node(0) + 16] = 8;
    assert!(!load(&outside).can_read("/"));
    for i in 0..4 {
        outside[node(0) + 12 + i] = 0xff;
    }
    assert_eq!(
        load(&outside).read("/").unwrap_err().message(),
        "corrupt image: missing block 0 for inode 0"
    );
    let mut fs = fs;
    assert!(fs.can_write("/"));
    assert!(matches!(fs.write("/", b"x"), Err(FsError::FileTooLarge)));
    assert_eq!(fs.read("/").unwrap(), b"");
    let mut fs = load(&bytes);
    assert_eq!(fs.write("/", b"").unwrap(), 0);
    assert_eq!(fs.read("/").unwrap(), b"");
    assert_eq!(fs.stat("/").unwrap().blocks, 0);
}

#[test]
fn blocks_without_bytes_are_told_apart() {
    let mut bytes = sample()[..BITMAP].to_vec();
    bytes[8..12].copy_from_slice(&0u32.to_le_bytes());
    bytes[12..16].copy_from_slice(&0u32.to_le_bytes());
    let fs = load(&bytes);
    assert!(!fs.can_readdir("/"));
    assert!(!fs.can_fsck());
    // The root can be looked at, since nothing is divided into blocks for it.
    assert!(fs.can_stat("/"));
    assert_eq!(fs.stat("/").unwrap().kind, FileKind::Directory);
    assert!(fs.can_read("/"));
    assert!(matches!(fs.read("/"), Err(FsError::IsADirectory(p)) if p == "/"));
    assert!(fs.can_write("/"));
    assert!(!fs.can_stat("/f"));
    // Paths that are refused before the image is looked at.
    assert!(fs.can_create("relative"));
    assert!(fs.can_unlink("/"));
    let mut fs = fs;
    assert!(matches!(fs.create("relative"), Err(FsError::InvalidPath(_))));
    assert!(matches!(fs.unlink("/"), Err(FsError::IsADirectory(_))));
    assert!(fs.format().is_err());
}
