//! Locating wildcard byte signatures in the memory of a live process.
//!
//! The library compiles a textual signature such as `"22 55 xx 60"` into a
//! [`Pattern`], decides which memory regions of a target process are worth
//! scanning, and drives the region-by-region search for the signature.  All
//! of that logic carries verified contracts.  The operating-system calls that
//! attach to a process and read its memory live outside the library; they
//! hand the scan plain byte buffers and take plain results back.

pub mod pattern;
pub mod region;
pub mod scan;
pub mod text;

pub use pattern::Pattern;
pub use pattern::PatternByte;
pub use pattern::PatternError;
pub use pattern::match_at;
pub use pattern::token_matches;
pub use region::MemoryRegion;
pub use region::parse_maps;
pub use region::protection_is_readable;
pub use region::region_is_scannable;
pub use scan::RegionRead;
pub use scan::ScanResult;
pub use scan::scan_region;
pub use scan::scan_regions;
