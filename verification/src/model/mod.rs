//! The mathematical model of an image, over which the contracts are stated.

pub mod check;
pub mod dir;
pub mod entry;
pub mod format;
pub mod frame;
pub mod image;
pub mod owner;
pub mod range;
pub mod sound;
pub mod tree;
