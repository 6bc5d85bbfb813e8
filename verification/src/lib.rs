//! Break/repair ledgers in the spirit of kintsugi: failures are recorded as
//! breaks, repairs are attached to them, and the history of each artifact is
//! kept across iterations in a registry.
//!
//! Modules:
//! - `binary64`: severities and gold contents, held as IEEE 754 bit patterns,
//!   with the comparisons and the clamping the ledger needs.
//! - `records`: break identifiers, break categories, breaks and repairs.
//! - `trail`: the golden trail of one iteration.
//! - `history`: the history of one artifact across iterations.
//! - `registry`: the histories of many artifacts.

pub mod binary64;
pub mod history;
pub mod records;
pub mod registry;
pub mod trail;

pub use binary64::Binary64;
pub use history::ArtifactHistory;
pub use records::{Break, BreakId, BreakType, Repair};
pub use registry::KintsugiRegistry;
pub use trail::{BreakFrequency, GoldenTrail};
