//! Application settings: compression effort, scan roots, and the at-rest
//! protection secret. A missing or corrupt settings document falls back to
//! these defaults; an operation that needs a secret is blocked rather than
//! run insecurely.

use vstd::prelude::*;

use crate::error::{BackupResult, MyError};

verus! {

/// The compression effort used when nothing is configured.
pub fn default_compression_level() -> (l: i32)
    ensures
        l == 6,
{
    6
}

/// How long the background service waits between backup passes, in
/// seconds, when nothing is configured.
pub fn daemon_backup_duration() -> (d: u32)
    ensures
        d == 3600,
{
    3600
}

pub struct Settings {
    pub language: String,
    pub compression_level: i32,
    pub daemon_backup_duration: u32,
    pub scan_root: Vec<String>,
    pub sync: bool,
    pub remote: Option<String>,
    pub password: Option<String>,
    pub password_cmd: Option<String>,
}

impl Default for Settings {
    fn default() -> (s: Self)
        ensures
            s.language@.len() == 0,
            s.compression_level == 6,
            s.daemon_backup_duration == 3600,
            s.scan_root@.len() == 0,
            !s.sync,
            s.remote is None,
            s.password is None,
            s.password_cmd is None,
    {
        Settings {
            language: String::new(),
            compression_level: 6,
            daemon_backup_duration: 3600,
            scan_root: Vec::new(),
            sync: false,
            remote: None,
            password: None,
            password_cmd: None,
        }
    }
}

impl Settings {
    /// Whether a secret for at-rest protection is configured, directly or
    /// through a command that produces one.
    pub fn encryption_configured(&self) -> (r: bool)
        ensures
            r == (self.password is Some || self.password_cmd is Some),
    {
        self.password.is_some() || self.password_cmd.is_some()
    }

    /// Block an operation that needs a secret when none is configured.
    pub fn require_encryption_config(&self) -> (r: BackupResult<()>)
        ensures
            r is Ok <==> (self.password is Some || self.password_cmd is Some),
            r matches Err(e) ==> e is NotConfigured,
    {
        if self.encryption_configured() {
            Ok(())
        } else {
            Err(MyError::NotConfigured)
        }
    }

    /// The compression effort the store is given: the configured level,
    /// clamped to what the compressor supports.
    pub fn effective_compression_level(&self) -> (level: i32)
        ensures
            level == if self.compression_level < crate::MAX_COMPRESSION_LEVEL {
                self.compression_level
            } else {
                crate::MAX_COMPRESSION_LEVEL
            },
    {
        crate::effective_compression_level(self.compression_level)
    }
}

} // verus!
