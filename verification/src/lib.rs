//! An in-process virtual filesystem namespace: a tree of directories and
//! files addressed by POSIX-like paths, with `cd` and `mkdir` built on
//! lexical path normalization. No I/O is performed; the tree lives entirely
//! in memory.

pub mod fs;
pub mod paths;
pub mod tree;
