//! A comic-shelf indexing core: discovery of comic sources in a
//! file-system tree, pattern-based metadata extraction, page enumeration
//! for image folders, archives and PDF documents, content-addressed
//! thumbnail caching, and partial-failure-tolerant aggregation of a whole
//! indexing run.
//!
//! Everything that decides or computes lives here with a verified
//! contract; reading and writing files, archives opened from disk, image
//! decoding and the like stand behind small trusted declarations, and a
//! thin unverified shell drives the I/O.

use vstd::prelude::*;

pub mod archive;
pub mod chars;
pub mod index;
pub mod natural;
pub mod numfmt;
pub mod order;
pub mod paths;
pub mod pattern;
pub mod pdf;
pub mod scan;
pub mod thumbs;

verus! {

} // verus!
