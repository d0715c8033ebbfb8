//! Types of the cross-backend metadata operations: unified object metadata,
//! attributes to set, and access-test modes.

use std::collections::HashMap;
use vstd::prelude::*;
use vstd::string::*;
use crate::text::{ascii_lower_eq, ascii_lower_seq};

verus! {

broadcast use vstd::string::group_string_axioms;

#[verifier::external_type_specification]
#[verifier::external_body]
pub struct ExSystemTime(std::time::SystemTime);

/// Unified metadata representation across backends.
#[derive(Debug, Clone)]
pub struct ObjectMetadata {
    /// Object/file path.
    pub path: String,
    /// Size in bytes.
    pub size: u64,
    /// Last modified timestamp.
    pub modified: Option<std::time::SystemTime>,
    /// MIME content type.
    pub content_type: Option<String>,
    /// Cache-Control header.
    pub cache_control: Option<String>,
    /// Content-Encoding header.
    pub content_encoding: Option<String>,
    /// Content-Language header.
    pub content_language: Option<String>,
    /// Content-Disposition header.
    pub content_disposition: Option<String>,
    /// ETag/version identifier.
    pub etag: Option<String>,
    /// Expiration time (HTTP Expires header).
    pub expires: Option<String>,
    /// File permissions as mode bits (e.g. 0o644).
    pub permissions: Option<u32>,
    /// Owner user ID.
    pub owner_uid: Option<u32>,
    /// Owner group ID.
    pub owner_gid: Option<u32>,
    /// Storage class/tier.
    pub storage_class: Option<String>,
    /// Server-side encryption type.
    pub server_side_encryption: Option<String>,
    /// KMS key ID (for SSE-KMS encryption).
    pub ssekms_key_id: Option<String>,
    /// Object version ID.
    pub version_id: Option<String>,
    /// Replication status.
    pub replication_status: Option<String>,
    /// Custom metadata key-value pairs.
    pub custom_metadata: HashMap<String, String>,
}

/// Attributes to set on an object/file.
#[derive(Debug, Clone)]
pub enum MetadataAttributes {
    /// POSIX permissions and ownership (file://, direct://).
    Posix {
        /// File mode bits.
        mode: Option<u32>,
        /// Owner user ID.
        uid: Option<u32>,
        /// Owner group ID.
        gid: Option<u32>,
    },
    /// Cloud storage metadata (s3://, gs://, az://).
    Cloud {
        content_type: Option<String>,
        cache_control: Option<String>,
        content_encoding: Option<String>,
        content_language: Option<String>,
        content_disposition: Option<String>,
        expires: Option<String>,
        storage_class: Option<String>,
        custom: HashMap<String, String>,
    },
}

/// Access permission test modes.
#[derive(Debug, Clone, Copy, PartialEq, Eq, Structural)]
pub enum AccessMode {
    /// Test read permission.
    Read,
    /// Test write permission.
    Write,
    /// Test execute permission.
    Execute,
    /// Test existence only.
    Exists,
}

/// Errors of metadata value handling.
#[derive(Debug, Clone)]
pub enum MetadataError {
    /// An access-mode word that names no mode (as given).
    InvalidAccessMode(String),
}

impl MetadataError {
    /// The human-readable message of the error.
    pub fn message(&self) -> (r: String)
        ensures
            match *self {
                MetadataError::InvalidAccessMode(s) => r@ == "Invalid access mode: "@ + s@,
            },
    {
        let mut m = String::new();
        match self {
            MetadataError::InvalidAccessMode(s) => {
                m.append("Invalid access mode: ");
                m.append(s.as_str());
            },
        }
        m
    }
}

/// `libc::R_OK`, the read-permission bit of `access()` (4 on every Unix
/// target of the libc crate).
#[verifier::external_body]
fn libc_r_ok() -> (r: i32)
    ensures
        r == 4,
{
    libc::R_OK
}

/// `libc::W_OK`, the write-permission bit of `access()` (2 on every Unix
/// target of the libc crate).
#[verifier::external_body]
fn libc_w_ok() -> (r: i32)
    ensures
        r == 2,
{
    libc::W_OK
}

/// `libc::X_OK`, the execute-permission bit of `access()` (1 on every Unix
/// target of the libc crate).
#[verifier::external_body]
fn libc_x_ok() -> (r: i32)
    ensures
        r == 1,
{
    libc::X_OK
}

/// `libc::F_OK`, the existence test of `access()` (0 on every Unix target of
/// the libc crate).
#[verifier::external_body]
fn libc_f_ok() -> (r: i32)
    ensures
        r == 0,
{
    libc::F_OK
}

/// The POSIX `access()` mode bits of each mode.
pub open spec fn posix_mode_bits(m: AccessMode) -> i32 {
    match m {
        AccessMode::Read => 4,
        AccessMode::Write => 2,
        AccessMode::Execute => 1,
        AccessMode::Exists => 0,
    }
}

/// The display word of each mode.
pub open spec fn access_mode_word(m: AccessMode) -> Seq<char> {
    match m {
        AccessMode::Read => "read"@,
        AccessMode::Write => "write"@,
        AccessMode::Execute => "execute"@,
        AccessMode::Exists => "exists"@,
    }
}

/// The mode a word names, in any case: `read|r`, `write|w`, `execute|x`,
/// `exists|e|f`.  (All these words are ASCII, so comparing the ASCII
/// lowercase gives what comparing the full Unicode lowercase gives.)
pub open spec fn access_mode_of(s: Seq<char>) -> Option<AccessMode> {
    let k = ascii_lower_seq(s);
    if k == "read"@ || k == "r"@ {
        Some(AccessMode::Read)
    } else if k == "write"@ || k == "w"@ {
        Some(AccessMode::Write)
    } else if k == "execute"@ || k == "x"@ {
        Some(AccessMode::Execute)
    } else if k == "exists"@ || k == "e"@ || k == "f"@ {
        Some(AccessMode::Exists)
    } else {
        None
    }
}

impl AccessMode {
    /// Convert to POSIX `access()` mode bits.
    pub fn to_posix_mode(&self) -> (r: i32)
        ensures
            r == posix_mode_bits(*self),
    {
        match self {
            AccessMode::Read => libc_r_ok(),
            AccessMode::Write => libc_w_ok(),
            AccessMode::Execute => libc_x_ok(),
            AccessMode::Exists => libc_f_ok(),
        }
    }

    /// The display word of the mode (`read`, `write`, `execute`, `exists`).
    pub fn as_str(&self) -> (r: &'static str)
        ensures
            r@ == access_mode_word(*self),
    {
        match self {
            AccessMode::Read => "read",
            AccessMode::Write => "write",
            AccessMode::Execute => "execute",
            AccessMode::Exists => "exists",
        }
    }

    /// Parse a mode word (see `access_mode_of`).
    pub fn parse_word(s: &str) -> (r: Result<AccessMode, MetadataError>)
        ensures
            match access_mode_of(s@) {
                Some(m) => r == Ok::<AccessMode, MetadataError>(m),
                None => r matches Err(MetadataError::InvalidAccessMode(t)) && t@ == s@,
            },
    {
        if ascii_lower_eq(s, "read") || ascii_lower_eq(s, "r") {
            Ok(AccessMode::Read)
        } else if ascii_lower_eq(s, "write") || ascii_lower_eq(s, "w") {
            Ok(AccessMode::Write)
        } else if ascii_lower_eq(s, "execute") || ascii_lower_eq(s, "x") {
            Ok(AccessMode::Execute)
        } else if ascii_lower_eq(s, "exists") || ascii_lower_eq(s, "e") || ascii_lower_eq(s, "f") {
            Ok(AccessMode::Exists)
        } else {
            Err(MetadataError::InvalidAccessMode(String::from_str(s)))
        }
    }
}

impl std::str::FromStr for AccessMode {
    type Err = MetadataError;

    fn from_str(s: &str) -> (r: Result<Self, MetadataError>)
        ensures
            match access_mode_of(s@) {
                Some(m) => r == Ok::<AccessMode, MetadataError>(m),
                None => r matches Err(MetadataError::InvalidAccessMode(t)) && t@ == s@,
            },
    {
        AccessMode::parse_word(s)
    }
}

/// Each mode's display word parses back to the mode.
pub proof fn law_access_mode_word_round_trip(m: AccessMode)
    ensures
        access_mode_of(access_mode_word(m)) == Some(m),
{
    reveal_strlit("read");
    reveal_strlit("r");
    reveal_strlit("write");
    reveal_strlit("w");
    reveal_strlit("execute");
    reveal_strlit("x");
    reveal_strlit("exists");
    reveal_strlit("e");
    reveal_strlit("f");
    let w = access_mode_word(m);
    assert(ascii_lower_seq(w) =~= w);
}

} // verus!
