//! Verified core of an archive extractor: filename-based detection of
//! (possibly multi-volume) archives, an ordered password database with a
//! promote-on-success policy, a two-phase password-discovery protocol driven
//! against an injected archive-tool capability, and the naming and merge
//! rules for crash-safe staging directories.  All filesystem and process
//! work stays outside the library: directory contents come in as listings,
//! tool verdicts come in through the adapter trait.

pub mod archives;
pub mod config;
pub mod extract;
pub mod p7z;
pub mod passwords;
pub mod rar;
pub mod rooted_tempdir;
pub mod temp_extract;
pub mod text;
