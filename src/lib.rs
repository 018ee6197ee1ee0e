//! Read-only access to Steam game backups: the on-disk formats of a backup,
//! the chunk pipeline that rebuilds file contents, the virtual directory tree
//! that a mount presents, and the integrity checks of a backup.
pub mod le;
pub mod csm;
pub mod envelope;
pub mod manifest;
pub mod path;
pub mod vfs;
pub mod read;
pub mod chunkstore;
pub mod sku;
pub mod handles;
pub mod router;
pub mod fs;
pub mod verify;
