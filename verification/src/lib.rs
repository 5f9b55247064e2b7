//! A verified workspace scanner: the logic behind a small set of filesystem
//! operations for a text editor's workspace. The host environment performs the
//! actual directory listings and hands each outcome to a [`scanner::Scanner`],
//! which decides what to descend into, which files to collect (regular files
//! whose extension, compared case-insensitively, is `meta` or `xml`), when to
//! abort, and in which order the collected paths are returned.

pub mod order;
pub mod path_ext;
pub mod scanner;
