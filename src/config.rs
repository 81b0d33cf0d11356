use vstd::prelude::*;

verus! {

/// The caller-chosen identifier of a stored object.
#[derive(Debug, Clone, Copy, PartialEq, Eq, Structural, PartialOrd, Ord)]
pub struct PageId(pub u64);

/// `std::path::PathBuf`, carried through as an opaque value: the store's root
/// directory, which only the I/O around the library reads.
#[verifier::external_type_specification]
#[verifier::external_body]
pub struct ExPathBuf(std::path::PathBuf);

/// Relies on `PathBuf::new`: an empty path.
pub assume_specification[ std::path::PathBuf::new ]() -> std::path::PathBuf;

/// The default partitioning function: every page goes to shard 0.
pub fn default_shard_function(_pid: PageId, _size: usize, _generation: u8) -> (r: u8)
    ensures
        r == 0,
{
    0
}

/// Options of a store. The partitioning function of pages into shards is
/// kept by the caller, which hands the library the shard byte it chose.
pub struct Config {
    pub path: std::path::PathBuf,
    pub target_file_size: u64,
    /// A file whose live records fall below this share of its capacity
    /// (in percent) is rewritten by maintenance.
    pub file_compaction_percent: u8,
}

impl Default for Config {
    fn default() -> (r: Config)
        ensures
            r.target_file_size == 268435456,
            r.file_compaction_percent == 60,
    {
        Config {
            path: std::path::PathBuf::new(),
            target_file_size: 268435456,
            file_compaction_percent: 60,
        }
    }
}

} // verus!
