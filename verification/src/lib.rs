//! A small Unix-style filesystem on a block device: a sharded buffer cache,
//! a write-ahead log with group commit, an inode layer with direct and
//! singly-indirect blocks, directories with path resolution, open files,
//! and what a shell on top of them decides. The modules `accounting` and
//! `dots` state two rules on what an image holds, and prove that the
//! operations keep them.

pub mod fs;
pub mod memdisk;
pub mod codec;
pub mod superblock;
pub mod buffer;
pub mod log;
pub mod volume;
pub mod bitmap;
pub mod inode;
pub mod path;
pub mod dir;
pub mod file;
pub mod shell;
pub mod filesystem;
pub mod mkfs;
pub mod lru;
pub mod accounting;
pub mod dots;
