//! End-to-end tests of the operations on paths.

use gridfs::block::DirEntry;
use gridfs::{Entry, FileKind, Fs, FsError};

/// The number of blocks that the bitmap marks free.
fn free_blocks(fs: &Fs) -> usize {
    let n = fs.superblock().num_blocks as usize;
    let mut bytes = Vec::new();
    fs.dump_image(&mut bytes).unwrap();
    let bitmap = &bytes[24 + 256 * 64..];
    (0..n).filter(|b| bitmap[b / 8] >> (b % 8) & 1 == 0).count()
}

#[test]
fn create_read_write_roundtrip() {
    let mut fs = Fs::new(128, 32).unwrap();
    fs.create("/a.txt").unwrap();
    fs.write("/a.txt", b"hello").unwrap();
    assert_eq!(fs.read("/a.txt").unwrap(), b"hello");
}

#[test]
fn mkdir_and_readdir() {
    let mut fs = Fs::new(128, 32).unwrap();
    fs.mkdir("/dir").unwrap();
    fs.create("/dir/file").unwrap();
    let entries = fs.readdir("/dir").unwrap();
    assert_eq!(entries.len(), 1);
    assert_eq!(entries[0].name, "file");
}

#[test]
fn create_read_write_delete_lifecycle() {
    let mut fs = Fs::new(128, 32).unwrap();
    fs.create("/foo.txt").unwrap();
    fs.write("/foo.txt", b"the quick brown fox").unwrap();
    assert_eq!(fs.read("/foo.txt").unwrap(), b"the quick brown fox");

    fs.unlink("/foo.txt").unwrap();
    assert!(matches!(
        fs.read("/foo.txt").unwrap_err(),
        FsError::NotFound(_)
    ));
}

#[test]
fn mkdir_and_readdir_lists_children() {
    let mut fs = Fs::new(256, 16).unwrap();
    fs.mkdir("/etc").unwrap();
    fs.mkdir("/etc/conf.d").unwrap();
    fs.create("/etc/hosts").unwrap();

    let mut entries: Vec<_> = fs.readdir("/etc").unwrap();
    entries.sort_by(|a, b| a.name.cmp(&b.name));
    assert_eq!(entries.len(), 2);
    assert_eq!(entries[0].name, "conf.d");
    assert_eq!(entries[0].kind, FileKind::Directory);
    assert_eq!(entries[1].name, "hosts");
    assert_eq!(entries[1].kind, FileKind::File);
}

#[test]
fn fills_block_bitmap_until_full() {
    // Only 4 data blocks; the root directory will consume one.
    let mut fs = Fs::new(128, 4).unwrap();
    fs.create("/a").unwrap();
    let payload = vec![0xab; 128];
    fs.write("/a", &payload).unwrap();
    // Now try to write a payload that needs more blocks than remain.
    fs.create("/b").unwrap();
    let big = vec![0u8; 128 * 16];
    let err = fs.write("/b", &big).unwrap_err();
    assert!(matches!(err, FsError::OutOfSpace));
}

#[test]
fn unlink_frees_blocks() {
    let mut fs = Fs::new(128, 16).unwrap();
    fs.create("/x").unwrap();
    fs.write("/x", &vec![1u8; 256]).unwrap();
    let used_before = fs.fsck();
    assert!(used_before.is_clean());

    let stat_before = fs.stat("/x").unwrap();
    assert!(stat_before.blocks > 0);
    fs.unlink("/x").unwrap();

    // Create another file of the same size — it must succeed because the
    // blocks were freed.
    fs.create("/y").unwrap();
    fs.write("/y", &vec![2u8; 256]).unwrap();
    let after = fs.fsck();
    assert!(after.is_clean(), "fsck issues: {:?}", after.issues);
}

#[test]
fn save_and_load_roundtrip() {
    let mut fs = Fs::new(256, 16).unwrap();
    fs.mkdir("/d").unwrap();
    fs.create("/d/h").unwrap();
    fs.write("/d/h", b"persisted").unwrap();

    let mut buf = Vec::new();
    fs.dump_image(&mut buf).unwrap();
    let mut cursor = &buf[..];
    let restored = Fs::load_image(&mut cursor).unwrap();
    assert_eq!(restored.read("/d/h").unwrap(), b"persisted");
    let entries = restored.readdir("/d").unwrap();
    assert_eq!(entries.len(), 1);
    assert_eq!(entries[0].name, "h");
}

#[test]
fn fsck_reports_clean_image() {
    let mut fs = Fs::new(128, 8).unwrap();
    fs.mkdir("/a").unwrap();
    fs.create("/a/b").unwrap();
    fs.write("/a/b", b"abc").unwrap();
    assert!(fs.fsck().is_clean());
}

#[test]
fn rejects_invalid_paths() {
    let mut fs = Fs::new(128, 8).unwrap();
    assert!(matches!(
        fs.create("relative").unwrap_err(),
        FsError::InvalidPath(_)
    ));
    assert!(matches!(
        fs.create("/../escape").unwrap_err(),
        FsError::InvalidPath(_)
    ));
}

#[test]
fn cannot_unlink_directory() {
    let mut fs = Fs::new(128, 8).unwrap();
    fs.mkdir("/d").unwrap();
    let err = fs.unlink("/d").unwrap_err();
    assert!(matches!(err, FsError::IsADirectory(_)));
}

#[test]
fn writes_larger_than_direct_pointers_use_indirect() {
    // block_size = 128, direct pointers cover 12 * 128 = 1536 bytes.
    let mut fs = Fs::new(128, 64).unwrap();
    fs.create("/big").unwrap();
    let data = vec![0x55u8; 4096];
    fs.write("/big", &data).unwrap();
    assert_eq!(fs.read("/big").unwrap(), data);
    let stat = fs.stat("/big").unwrap();
    assert!(stat.blocks > 12);
    assert!(fs.fsck().is_clean());
}

#[test]
fn rewriting_a_file_reclaims_blocks() {
    let mut fs = Fs::new(128, 16).unwrap();
    fs.create("/f").unwrap();
    fs.write("/f", &vec![9u8; 512]).unwrap();
    // Overwrite with a smaller payload — old blocks should be freed.
    fs.write("/f", b"short").unwrap();
    assert_eq!(fs.read("/f").unwrap(), b"short");
    assert!(fs.fsck().is_clean());
}

#[test]
fn quick_start() {
    let mut fs = Fs::new(512, 64).unwrap();
    fs.mkdir("/docs").unwrap();
    fs.create("/docs/notes.txt").unwrap();
    assert_eq!(fs.write("/docs/notes.txt", b"hello, gridfs!").unwrap(), 14);
    assert_eq!(fs.read("/docs/notes.txt").unwrap(), b"hello, gridfs!");
    let mut buf = Vec::new();
    fs.dump_image(&mut buf).unwrap();
    let reloaded = Fs::load_image(&mut &buf[..]).unwrap();
    assert_eq!(reloaded.read("/docs/notes.txt").unwrap(), b"hello, gridfs!");
}

#[test]
fn the_shell_prints_what_the_readme_shows() {
    let mut fs = Fs::new(512, 64).unwrap();
    fs.mkdir("/docs").unwrap();
    assert_eq!(fs.store("/docs/hello.txt", b"hello, gridfs").unwrap(), 13);
    let listed = fs.readdir("/docs").unwrap();
    assert_eq!(listed.len(), 1);
    assert_eq!(listed[0].line(), "-    1 hello.txt");
    assert_eq!(fs.read("/docs/hello.txt").unwrap(), b"hello, gridfs");
    assert_eq!(
        fs.stat("/docs/hello.txt").unwrap().line(),
        "inode=1 kind=File size=13 blocks=1 links=1"
    );
    assert_eq!(fs.fsck().into_lines(), vec!["clean"]);
}

#[test]
fn geometry_is_checked() {
    for (block_size, num_blocks, want) in [
        (63, 8, "corrupt image: block size must be at least 64 bytes"),
        (0, 0, "corrupt image: block size must be at least 64 bytes"),
        (64, 0, "corrupt image: num_blocks must be > 0"),
    ] {
        match Fs::new(block_size, num_blocks) {
            Err(e) => assert_eq!(e.message(), want),
            Ok(_) => panic!("{} {}", block_size, num_blocks),
        }
    }
    let fs = Fs::new(68, 3).unwrap();
    let sb = fs.superblock();
    assert_eq!((sb.block_size, sb.num_blocks), (68, 3));
    assert_eq!((sb.num_inodes, sb.root_inode), (256, 0));
    assert_eq!(sb.max_file_size(), 1972);
    assert_eq!(Fs::new(4096, 1).unwrap().superblock().max_file_size(), 4_243_456);
}

#[test]
fn blocks_that_no_entry_fits_hold_no_names() {
    for block_size in [64, 65, 66, 67] {
        let mut fs = Fs::new(block_size, 1).unwrap();
        assert_eq!(fs.superblock().block_size as usize, block_size);
        assert_eq!(fs.superblock().num_blocks, 1);
        let mut before = Vec::new();
        fs.dump_image(&mut before).unwrap();
        assert!(fs.can_create("/f") && fs.can_mkdir("/f") && fs.can_store("/f"));
        assert!(matches!(fs.create("/f"), Err(FsError::OutOfSpace)));
        assert!(matches!(fs.mkdir("/f"), Err(FsError::OutOfSpace)));
        assert!(matches!(fs.store("/f", b"x"), Err(FsError::OutOfSpace)));
        assert!(matches!(fs.create("/f/g"), Err(FsError::NotFound(n)) if n == "f"));
        assert!(matches!(
            fs.create(&format!("/{}", "a".repeat(61))),
            Err(FsError::InvalidPath(_))
        ));
        assert!(matches!(fs.unlink("/f"), Err(FsError::NotFound(_))));
        let mut after = Vec::new();
        fs.dump_image(&mut after).unwrap();
        assert_eq!(after, before);
        let mut fs = Fs::load_image(&mut &after[..]).unwrap();
        assert_eq!(fs.readdir("/").unwrap(), vec![]);
        assert!(fs.fsck().is_clean());
        fs.format().unwrap();
    }
}

#[test]
fn a_fresh_filesystem_is_empty_and_clean() {
    let fs = Fs::new(128, 4).unwrap();
    assert!(fs.readdir("/").unwrap().is_empty());
    assert!(fs.fsck().is_clean());
    let st = fs.stat("/").unwrap();
    assert_eq!((st.inode, st.kind, st.size), (0, FileKind::Directory, 0));
    assert_eq!((st.link_count, st.blocks), (1, 0));
}

#[test]
fn create_returns_the_fresh_inode() {
    let mut fs = Fs::new(128, 16).unwrap();
    fs.mkdir("/d").unwrap();
    let node = fs.create("/d/f").unwrap();
    assert_eq!(node.id, 1);
    assert_eq!(node.kind, FileKind::File);
    assert_eq!((node.size, node.link_count, node.allocated), (0, 1, true));
    assert_eq!(node.direct, [u32::MAX; 12]);
    assert_eq!(node.indirect, u32::MAX);
    assert!(fs.read("/d/f").unwrap().is_empty());
    let st = fs.stat("/d/f").unwrap();
    assert_eq!((st.inode, st.size, st.blocks), (1, 0, 0));
    let entries = fs.readdir("/d").unwrap();
    assert_eq!((entries[0].inode, entries[0].kind), (1, FileKind::File));
}

#[test]
fn inodes_and_entries_are_used_again() {
    let mut fs = Fs::new(128, 16).unwrap();
    fs.create("/a").unwrap();
    fs.create("/b").unwrap();
    fs.create("/c").unwrap();
    fs.unlink("/b").unwrap();
    assert_eq!(fs.create("/d").unwrap().id, 2);
    // One entry fits a block of 128 bytes: the new one takes the freed place.
    let names: Vec<String> = fs.readdir("/").unwrap().into_iter().map(|e| e.name).collect();
    assert_eq!(names, vec!["a", "d", "c"]);
    assert_eq!(fs.stat("/").unwrap().size, 3 * 128);
}

#[test]
fn format_discards_everything() {
    let mut fs = Fs::new(128, 16).unwrap();
    fs.mkdir("/d").unwrap();
    fs.create("/d/f").unwrap();
    fs.write("/d/f", b"data").unwrap();
    fs.format().unwrap();
    assert!(fs.readdir("/").unwrap().is_empty());
    assert_eq!(fs.superblock().num_blocks, 16);
    assert!(fs.fsck().is_clean());
    assert!(matches!(fs.stat("/d"), Err(FsError::NotFound(_))));
}

#[test]
fn errors_name_what_they_are_about() {
    let mut fs = Fs::new(256, 32).unwrap();
    fs.mkdir("/d").unwrap();
    fs.create("/f").unwrap();
    let message = |r: gridfs::Result<()>| r.unwrap_err().message();
    assert_eq!(message(fs.create("/").map(|_| ())), "invalid path: /");
    assert_eq!(message(fs.mkdir("/")), "file already exists: /");
    assert_eq!(message(fs.mkdir("/d")), "file already exists: /d");
    assert_eq!(
        message(fs.create("/f").map(|_| ())),
        "file already exists: /f"
    );
    assert_eq!(
        message(fs.create("/f/x").map(|_| ())),
        "not a directory: /f/x"
    );
    assert_eq!(
        message(fs.create("/no/x").map(|_| ())),
        "no such file or directory: no"
    );
    assert_eq!(message(fs.read("/f/x").map(|_| ())), "not a directory: x");
    assert_eq!(
        message(fs.read("/d/x").map(|_| ())),
        "no such file or directory: x"
    );
    assert_eq!(message(fs.read("/d").map(|_| ())), "is a directory: /d");
    assert_eq!(
        message(fs.write("/d", b"x").map(|_| ())),
        "is a directory: /d"
    );
    assert_eq!(
        message(fs.readdir("/f").map(|_| ())),
        "not a directory: /f"
    );
    assert_eq!(message(fs.unlink("/")), "is a directory: /");
    assert_eq!(message(fs.rmdir("/")), "is a directory: /");
    assert_eq!(
        message(fs.unlink("/d/x")),
        "no such file or directory: /d/x"
    );
    assert_eq!(message(fs.rmdir("/f")), "not a directory: /f");
    assert_eq!(message(fs.rmdir("/x")), "no such file or directory: /x");
    fs.create("/d/x").unwrap();
    assert_eq!(message(fs.rmdir("/d")), "file already exists: /d not empty");
}

#[test]
fn files_have_a_largest_size() {
    let mut fs = Fs::new(68, 40).unwrap();
    fs.create("/f").unwrap();
    let data: Vec<u8> = (0..1972u32).map(|i| i as u8).collect();
    assert_eq!(fs.write("/f", &data).unwrap(), 1972);
    assert_eq!(fs.read("/f").unwrap(), data);
    // 29 data blocks and the block of pointers.
    assert_eq!(fs.stat("/f").unwrap().blocks, 30);
    let err = fs.write("/f", &vec![0u8; 1973]).unwrap_err();
    assert!(matches!(err, FsError::FileTooLarge));
    assert_eq!(err.message(), "file exceeds maximum addressable size");
    // The contents are gone all the same.
    assert!(fs.read("/f").unwrap().is_empty());
    assert_eq!(fs.stat("/f").unwrap().blocks, 0);
    assert!(fs.fsck().is_clean());
}

#[test]
fn a_write_that_runs_out_of_space_leaves_the_file_empty() {
    let mut fs = Fs::new(128, 4).unwrap();
    fs.create("/f").unwrap();
    fs.write("/f", b"kept no longer").unwrap();
    let err = fs.write("/f", &vec![7u8; 128 * 4]).unwrap_err();
    assert_eq!(err.message(), "no space left on device");
    assert!(fs.read("/f").unwrap().is_empty());
    let st = fs.stat("/f").unwrap();
    assert_eq!((st.size, st.blocks), (0, 3));
    assert!(fs.fsck().is_clean());
    assert_eq!(fs.write("/f", &vec![7u8; 128 * 3]).unwrap(), 384);
}

#[test]
fn a_write_succeeds_exactly_if_its_blocks_fit() {
    // One block goes to the root directory.
    for free in 1..20usize {
        let mut fs = Fs::new(128, free + 1).unwrap();
        fs.create("/f").unwrap();
        for blocks in 0..20usize {
            let need = if blocks > 12 { blocks + 1 } else { blocks };
            let r = fs.write("/f", &vec![1u8; 128 * blocks]);
            if need <= free {
                assert_eq!(r.unwrap(), 128 * blocks);
                assert_eq!(fs.stat("/f").unwrap().blocks as usize, need);
            } else {
                assert!(matches!(r, Err(FsError::OutOfSpace)));
            }
        }
    }
}

#[test]
fn the_inode_table_fills_up() {
    let mut fs = Fs::new(512, 128).unwrap();
    for i in 0..255 {
        assert_eq!(fs.create(&format!("/f{i}")).unwrap().id, i + 1);
    }
    let err = fs.create("/more").unwrap_err();
    assert!(matches!(err, FsError::OutOfInodes));
    assert_eq!(err.message(), "inode table is full");
    assert!(matches!(fs.mkdir("/more"), Err(FsError::OutOfInodes)));
    // 37 directory blocks of seven entries each, and a block of pointers.
    assert_eq!(fs.stat("/").unwrap().blocks, 38);
    assert_eq!(fs.readdir("/").unwrap().len(), 255);
    assert!(fs.fsck().is_clean());
    fs.unlink("/f100").unwrap();
    fs.mkdir("/more").unwrap();
    assert_eq!(fs.stat("/more").unwrap().inode, 101);
}

#[test]
fn a_directory_without_room_leaks_the_inode() {
    let mut fs = Fs::new(128, 1).unwrap();
    fs.create("/a").unwrap();
    assert!(matches!(fs.create("/b"), Err(FsError::OutOfSpace)));
    assert_eq!(fs.readdir("/").unwrap().len(), 1);
    assert_eq!(
        fs.fsck().issues,
        vec!["inode 2 allocated but unreachable".to_string()]
    );
}

#[test]
fn directories_have_a_largest_size() {
    // One entry per block, 12 + 17 blocks.
    let mut fs = Fs::new(68, 64).unwrap();
    for i in 0..29 {
        fs.create(&format!("/f{i}")).unwrap();
    }
    assert!(matches!(fs.create("/f29"), Err(FsError::FileTooLarge)));
    fs.unlink("/f3").unwrap();
    fs.create("/f30").unwrap();
    assert!(matches!(fs.create("/f31"), Err(FsError::FileTooLarge)));
}

#[test]
fn names_longer_than_an_entry_are_refused() {
    let mut fs = Fs::new(128, 8).unwrap();
    let long = format!("/{}", "a".repeat(61));
    assert!(matches!(fs.create(&long), Err(FsError::InvalidPath(p)) if p == long));
    assert!(matches!(fs.mkdir(&long), Err(FsError::InvalidPath(p)) if p == long));
    assert_eq!(fs.readdir("/").unwrap(), vec![]);
    assert!(matches!(fs.stat(&long), Err(FsError::NotFound(_))));
    assert!(fs.fsck().is_clean());
    // Nothing was claimed: the next file gets the first free inode.
    let fits = format!("/{}", "n".repeat(60));
    assert_eq!(fs.create(&fits).unwrap().id, 1);
    assert_eq!(fs.readdir("/").unwrap()[0].name, "n".repeat(60));
    // Bytes count, not characters.
    assert!(matches!(
        fs.create(&format!("/{}", "ö".repeat(31))),
        Err(FsError::InvalidPath(_))
    ));
    fs.create(&format!("/{}", "ö".repeat(30))).unwrap();
    // What is wrong with the parent comes first.
    let below = |parent: &str| format!("{parent}/{}", "a".repeat(61));
    assert!(matches!(fs.create(&below("/none")), Err(FsError::NotFound(n)) if n == "none"));
    assert!(matches!(fs.mkdir(&below("/none")), Err(FsError::NotFound(n)) if n == "none"));
    assert!(matches!(fs.create(&below(&fits)), Err(FsError::NotADirectory(_))));
    assert!(matches!(fs.mkdir(&below(&fits)), Err(FsError::NotADirectory(_))));
    assert!(fs.fsck().is_clean());
}

#[test]
fn a_write_changes_no_other_path() {
    let mut fs = Fs::new(128, 64).unwrap();
    fs.mkdir("/d").unwrap();
    fs.create("/d/a").unwrap();
    fs.create("/d/b").unwrap();
    fs.write("/d/a", &vec![1u8; 700]).unwrap();
    fs.write("/d/b", &vec![2u8; 3000]).unwrap();
    let listed = fs.readdir("/d").unwrap();
    let stat_a = fs.stat("/d/a").unwrap();
    for data in [&b"x"[..], &[3u8; 5000][..], &[4u8; 1536][..], &b""[..]] {
        let _ = fs.write("/d/b", data);
        assert_eq!(fs.read("/d/a").unwrap(), vec![1u8; 700]);
        assert_eq!(fs.stat("/d/a").unwrap(), stat_a);
        assert_eq!(fs.readdir("/d").unwrap(), listed);
        assert!(fs.fsck().is_clean());
    }
}

#[test]
fn making_an_entry_changes_no_other_path() {
    let mut fs = Fs::new(256, 64).unwrap();
    fs.mkdir("/d").unwrap();
    fs.create("/d/a").unwrap();
    fs.write("/d/a", b"payload").unwrap();
    let stat_a = fs.stat("/d/a").unwrap();
    fs.mkdir("/d/e").unwrap();
    fs.create("/d/e/f").unwrap();
    assert_eq!(fs.read("/d/a").unwrap(), b"payload");
    assert_eq!(fs.stat("/d/a").unwrap(), stat_a);
    assert_eq!(fs.readdir("/").unwrap().len(), 1);
    assert_eq!(fs.readdir("/d").unwrap().len(), 2);
    assert_eq!(fs.readdir("/d/e").unwrap().len(), 1);
}

#[test]
fn a_removal_removes_one_name() {
    let mut fs = Fs::new(256, 64).unwrap();
    fs.mkdir("/d").unwrap();
    fs.create("/d/a").unwrap();
    fs.create("/d/b").unwrap();
    fs.write("/d/b", b"stays").unwrap();
    fs.unlink("/d/a").unwrap();
    assert!(matches!(fs.read("/d/a"), Err(FsError::NotFound(n)) if n == "a"));
    assert!(matches!(fs.unlink("/d/a"), Err(FsError::NotFound(p)) if p == "/d/a"));
    assert_eq!(fs.read("/d/b").unwrap(), b"stays");
    let names: Vec<String> = fs.readdir("/d").unwrap().into_iter().map(|e| e.name).collect();
    assert_eq!(names, vec!["b"]);
    fs.unlink("/d/b").unwrap();
    fs.rmdir("/d").unwrap();
    assert!(matches!(fs.readdir("/d"), Err(FsError::NotFound(_))));
    assert!(matches!(fs.rmdir("/d"), Err(FsError::NotFound(_))));
    assert!(fs.fsck().is_clean());
}

#[test]
fn redundant_slashes_do_not_matter() {
    let mut fs = Fs::new(128, 16).unwrap();
    fs.mkdir("/d/").unwrap();
    fs.create("//d//f").unwrap();
    fs.write("/d/f/", b"x").unwrap();
    assert_eq!(fs.read("/d/f").unwrap(), b"x");
    assert!(matches!(fs.create("/d/f"), Err(FsError::AlreadyExists(_))));
}

#[test]
fn names_are_not_only_ascii() {
    let mut fs = Fs::new(128, 16).unwrap();
    fs.create("/größe").unwrap();
    fs.write("/größe", b"5").unwrap();
    assert_eq!(fs.readdir("/").unwrap()[0].name, "größe");
    assert!(matches!(fs.read("/grösse"), Err(FsError::NotFound(_))));
}

#[test]
fn nothing_is_removed_below_a_file() {
    let mut fs = Fs::new(128, 8).unwrap();
    fs.create("/f").unwrap();
    fs.create("/g").unwrap();
    assert!(matches!(fs.unlink("/f/x"), Err(FsError::NotADirectory(p)) if p == "/f/x"));
    // The bytes of an entry in use under `x` for the inode of `/g`.
    let mut buf = [0u8; 68];
    let entry = DirEntry { inode: 2, used: true, name_len: 1, name: "x".to_string() };
    entry.encode(&mut buf);
    fs.write("/f", &buf).unwrap();
    assert!(fs.can_unlink("/f/x"));
    assert!(fs.can_rmdir("/f/x"));
    assert!(matches!(fs.unlink("/f/x"), Err(FsError::NotADirectory(p)) if p == "/f/x"));
    assert!(matches!(fs.rmdir("/f/x"), Err(FsError::NotADirectory(p)) if p == "/f/x"));
    assert_eq!(fs.read("/f").unwrap(), buf);
    assert_eq!(fs.read("/g").unwrap(), b"");
    assert!(fs.fsck().is_clean());
}

#[test]
fn store_creates_what_is_not_there() {
    let mut fs = Fs::new(128, 16).unwrap();
    assert!(fs.can_store("/f"));
    assert_eq!(fs.store("/f", b"first").unwrap(), 5);
    assert_eq!(fs.read("/f").unwrap(), b"first");
    let id = fs.stat("/f").unwrap().inode;
    assert_eq!(fs.store("/f", b"second!").unwrap(), 7);
    assert_eq!(fs.read("/f").unwrap(), b"second!");
    assert_eq!(fs.stat("/f").unwrap().inode, id);
    // The errors are those of the step that fails.
    assert!(matches!(fs.store("/none/f", b""), Err(FsError::NotFound(n)) if n == "none"));
    assert!(matches!(fs.store("/f/g", b""), Err(FsError::NotADirectory(_))));
    assert!(matches!(fs.store("/", b""), Err(FsError::IsADirectory(_))));
    assert!(matches!(fs.store("relative", b""), Err(FsError::InvalidPath(_))));
    assert!(matches!(
        fs.store(&format!("/{}", "a".repeat(61)), b""),
        Err(FsError::InvalidPath(_))
    ));
    // A file that was created stays, empty, where the data does not fit.
    assert!(matches!(fs.store("/big", &vec![0u8; 1920]), Err(FsError::OutOfSpace)));
    assert_eq!(fs.read("/big").unwrap(), b"");
    assert!(fs.fsck().is_clean());
}

#[test]
fn a_removal_keeps_the_order_and_the_parent() {
    let mut fs = Fs::new(256, 64).unwrap();
    fs.mkdir("/d").unwrap();
    for name in ["a", "b", "c", "e", "f"] {
        fs.create(&format!("/d/{name}")).unwrap();
        fs.write(&format!("/d/{name}"), name.repeat(300).as_bytes()).unwrap();
    }
    fs.mkdir("/d/g").unwrap();
    let listed = fs.readdir("/d").unwrap();
    let parent = fs.stat("/d").unwrap();
    let id = fs.stat("/d/c").unwrap().inode;
    let blocks = fs.stat("/d/c").unwrap().blocks;
    assert_eq!(blocks, 2);
    let free = free_blocks(&fs);
    fs.unlink("/d/c").unwrap();
    let left: Vec<Entry> = listed.iter().filter(|e| e.name != "c").cloned().collect();
    assert_eq!(fs.readdir("/d").unwrap(), left);
    assert_eq!(fs.stat("/d").unwrap(), parent);
    assert_eq!(free_blocks(&fs), free + blocks as usize);
    assert_eq!(fs.read("/d/e").unwrap(), "e".repeat(300).as_bytes());
    fs.rmdir("/d/g").unwrap();
    let left: Vec<Entry> = left.iter().filter(|e| e.name != "g").cloned().collect();
    assert_eq!(fs.readdir("/d").unwrap(), left);
    assert_eq!(fs.stat("/d").unwrap(), parent);
    // The new name takes the place and the inode that were given back.
    assert_eq!(fs.create("/d/z").unwrap().id, id);
    let names: Vec<String> = fs.readdir("/d").unwrap().into_iter().map(|e| e.name).collect();
    assert_eq!(names, vec!["a", "b", "z", "e", "f"]);
    assert!(fs.fsck().is_clean());
}

#[test]
fn a_removal_undoes_the_making() {
    // One entry per block, so that the directory grows for every name.
    let mut fs = Fs::new(68, 64).unwrap();
    fs.mkdir("/d").unwrap();
    fs.create("/d/a").unwrap();
    fs.create("/d/b").unwrap();
    fs.write("/d/b", b"stays").unwrap();
    fs.unlink("/d/a").unwrap();
    fs.create("/d/c").unwrap();
    let root = fs.readdir("/").unwrap();
    let listed = fs.readdir("/d").unwrap();
    let stat_b = fs.stat("/d/b").unwrap();
    for path in ["/d/e", "/e"] {
        fs.mkdir(path).unwrap();
        fs.rmdir(path).unwrap();
        assert!(matches!(fs.stat(path), Err(FsError::NotFound(n)) if n == "e"));
        fs.create(path).unwrap();
        fs.unlink(path).unwrap();
        assert!(matches!(fs.stat(path), Err(FsError::NotFound(n)) if n == "e"));
        assert_eq!(fs.readdir("/").unwrap(), root);
        assert_eq!(fs.readdir("/d").unwrap(), listed);
        assert_eq!(fs.read("/d/b").unwrap(), b"stays");
        assert_eq!(fs.stat("/d/b").unwrap(), stat_b);
        assert!(fs.fsck().is_clean());
    }
    // The same inodes are free.
    assert_eq!(fs.create("/next").unwrap().id, 3);
    fs.mkdir("/last").unwrap();
    assert_eq!(fs.stat("/last").unwrap().inode, 254);
}

#[test]
fn listings_agree_with_stat() {
    let mut fs = Fs::new(256, 64).unwrap();
    fs.mkdir("/d").unwrap();
    for i in 0..7 {
        fs.create(&format!("/d/f{i}")).unwrap();
    }
    fs.mkdir("/d/sub").unwrap();
    fs.unlink("/d/f2").unwrap();
    fs.unlink("/d/f5").unwrap();
    let listed = fs.readdir("/d").unwrap();
    assert_eq!(listed.len(), 6);
    for (i, e) in listed.iter().enumerate() {
        let st = fs.stat(&format!("/d/{}", e.name)).unwrap();
        assert_eq!(st.inode, e.inode);
        assert_eq!(st.kind, e.kind);
        assert!(e.name != "." && e.name != "..");
        assert!(listed[..i].iter().all(|o| o.name != e.name));
    }
    for name in ["f0", "f1", "f2", "f3", "f4", "f5", "f6", "sub", "none"] {
        let there = listed.iter().any(|e| e.name == name);
        assert_eq!(there, fs.stat(&format!("/d/{name}")).is_ok());
    }
}

#[test]
fn operations_on_own_images_stay_inside() {
    let mut fs = Fs::new(128, 16).unwrap();
    fs.mkdir("/d").unwrap();
    fs.create("/d/f").unwrap();
    fs.write("/d/f", &vec![1u8; 300]).unwrap();
    for path in ["/", "/d", "/d/f", "/d/f/g", "/none", "relative"] {
        assert!(fs.can_read(path));
        assert!(fs.can_stat(path));
        assert!(fs.can_readdir(path));
        assert!(fs.can_write(path));
        assert!(fs.can_create(path));
        assert!(fs.can_mkdir(path));
        assert!(fs.can_store(path));
        assert!(fs.can_unlink(path));
        assert!(fs.can_rmdir(path));
    }
    assert!(fs.can_fsck());
}
