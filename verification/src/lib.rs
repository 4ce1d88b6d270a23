//! Responder side of a desktop search-integration protocol.
//!
//! Given free-text query terms the library ranks matching items drawn from a
//! dynamically loaded collection, supports incremental refinement of an
//! already-running search without re-querying the source, supplies display
//! metadata for specific result identifiers, and produces the launch request
//! for a chosen result.

pub mod items;
pub mod matching;
pub mod provider;
pub mod recents;
pub mod result_set;
pub mod strutil;
pub mod xml;

pub use items::MainLoopError;
