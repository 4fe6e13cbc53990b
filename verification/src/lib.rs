//! A local bibliographic reference store kept in step with a remote
//! catalog: duplicate-safe appends of selected records, whole-store format
//! conversion with an upfront backup and per-record fallback, and an index
//! over derived annotation files keyed by an embedded header.

use vstd::prelude::*;

pub mod codec;
pub mod convert;
pub mod header;
pub mod notes;
pub mod paths;
pub mod record;
pub mod scan;
pub mod store;

pub use record::Format;

verus! {

} // verus!
