//! Settings and metadata of a database.

use vstd::prelude::*;
use crate::ids::Uuid;

verus! {

/// The cipher that the database is written out with.
#[derive(Debug, Clone, Copy, PartialEq, Eq, Structural)]
pub enum OuterCipher {
    /// AES with a key of 256 bits.
    Aes256,
    /// Twofish.
    Twofish,
    /// ChaCha20.
    ChaCha20,
}

/// How the database is compressed before it is encrypted.
#[derive(Debug, Clone, Copy, PartialEq, Eq, Structural)]
pub enum Compression {
    /// Not at all.
    Uncompressed,
    /// With gzip.
    GZip,
}

/// Configuration settings of a database such as encryption and compression algorithms.
#[derive(Debug, Clone, Copy, PartialEq, Eq, Structural)]
pub struct DatabaseConfig {
    /// The cipher that the database is written out with.
    pub outer_cipher: OuterCipher,
    /// How the database is compressed.
    pub compression: Compression,
}

impl DatabaseConfig {
    /// The configuration of a new database.
    pub open spec fn initial() -> DatabaseConfig {
        DatabaseConfig { outer_cipher: OuterCipher::Aes256, compression: Compression::GZip }
    }
}

impl Default for DatabaseConfig {
    fn default() -> (result: Self)
        ensures
            result == DatabaseConfig::initial(),
    {
        DatabaseConfig { outer_cipher: OuterCipher::Aes256, compression: Compression::GZip }
    }
}

/// Metadata of a database.
#[derive(Debug, Clone, Copy, PartialEq, Eq)]
pub struct Meta {
    /// The group that deleted objects are put into.
    pub recyclebin_uuid: Option<Uuid>,
}

impl Meta {
    /// The metadata of a new database.
    pub open spec fn initial() -> Meta {
        Meta { recyclebin_uuid: None }
    }
}

impl Default for Meta {
    fn default() -> (result: Self)
        ensures
            result == Meta::initial(),
    {
        Meta { recyclebin_uuid: None }
    }
}

} // verus!
