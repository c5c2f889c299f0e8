//! Index engine of the PK2 archive format: the block and chain structure that
//! holds an archive's directory tree, the cache built from it, path
//! resolution, and the operations that create and delete entries.

pub mod archive;
pub mod blowfish;
pub mod bytes;
pub mod constants;
pub mod error;
pub mod filetime;
pub mod io;
pub mod path;
pub mod raw;
