//! What the operations promise together.

pub mod any;
pub mod blocks;
pub mod check;
pub mod clean;
pub mod count;
pub mod fit;
pub mod geometry;
pub mod layout;
pub mod links;
pub mod listing;
pub mod make;
pub mod meta;
pub mod names;
pub mod order;
pub mod outcome;
pub mod places;
pub mod read;
pub mod remove;
pub mod report;
pub mod rewrite;
pub mod space;
pub mod undo;
pub mod upkeep;
pub mod write;
