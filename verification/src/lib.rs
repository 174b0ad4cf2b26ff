//! A local data-catalog library: projects grouped into collections, each
//! project holding a virtual tree of file and folder entries that point at
//! physical locations on disk.  The library manages naming, location and
//! lifecycle of the entries; reading and writing file contents, and every
//! filesystem call, is left to the surrounding program, which acts on the
//! physical paths these functions return.

pub mod errors;
pub mod strutil;
pub mod paths;
pub mod endpoint;
pub mod registry;
pub mod tree;
pub mod manager;
pub mod server;
pub mod laws;
