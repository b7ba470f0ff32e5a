//! The macOS backend, which enumerates nothing yet: no volumes, no scans,
//! no journal.
use vstd::prelude::*;
use crate::types::IndexedFile;

verus! {

/// Why a macOS scan is refused.
#[derive(Debug, Clone, Copy, PartialEq, Eq, Structural)]
pub struct NotImplemented;

impl NotImplemented {
    pub fn message(&self) -> (r: &'static str)
        ensures
            r@ == "macOS enumeration not yet implemented (Phase 2b)"@,
    {
        "macOS enumeration not yet implemented (Phase 2b)"
    }
}

/// Indexable volumes: none yet.
pub fn discover_volumes() -> (r: Vec<String>)
    ensures
        r@.len() == 0,
{
    Vec::new()
}

/// Scanning a volume is refused.
pub fn scan_volume(volume: &str) -> (r: Result<Vec<IndexedFile>, NotImplemented>)
    ensures
        r is Err,
{
    Err(NotImplemented)
}

/// The volume of a path: empty.
pub fn volume_of(path: &str) -> (r: String)
    ensures
        r@ == Seq::<char>::empty(),
{
    String::new()
}

/// FSEvents keeps no per-file journal: no checkpoints.
pub fn journal_tails(volumes: &[String]) -> (r: Vec<(String, u64, i64)>)
    ensures
        r@.len() == 0,
{
    Vec::new()
}

} // verus!
