//! # gridfs
//!
//! A small, in-memory, FAT-style filesystem, verified with Verus.
//!
//! `gridfs` models the core ideas of a classic Unix filesystem — superblock,
//! inode table, free block bitmap, and a data area addressed by direct +
//! single-indirect block pointers — without any of the OS plumbing required by
//! a real driver.
//!
//! ## Quick start
//!
//! ```
//! use gridfs::Fs;
//!
//! let mut fs = Fs::new(512, 64).unwrap();
//! fs.mkdir("/docs").unwrap();
//! fs.create("/docs/notes.txt").unwrap();
//! fs.write("/docs/notes.txt", b"hello, gridfs!").unwrap();
//!
//! let data = fs.read("/docs/notes.txt").unwrap();
//! assert_eq!(data, b"hello, gridfs!");
//! ```
//!
//! See [`Fs`] for the full public surface.
//!
//! ## How the contracts are stated
//!
//! The view of an [`Fs`] is an [`ImageView`](model::image::ImageView): the
//! tables of the image as sequences. Each operation is a function on such
//! values in [`model`], and the contract of the executable function says that
//! it computes just that, for every image on which it stays inside the image.
//! [`laws`] proves what the operations promise together.

use vstd::prelude::*;

pub mod block;
pub mod codec;
pub mod error;
pub mod fs;
pub mod inode;
pub mod laws;
pub mod model;
pub mod path;
pub mod show;
pub mod text;

pub use error::{FsError, Result};
pub use fs::{Entry, Fs, FsckReport, Stat};
pub use inode::{FileKind, Inode, InodeId};

verus! {

}
