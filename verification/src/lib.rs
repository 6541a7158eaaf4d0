//! A host-filesystem capture library: glob patterns are decomposed into
//! literal root paths, a two-phase walk over those roots selects entries
//! without duplication, and selected files are streamed as framed messages
//! holding compressed content and two content digests.

pub mod glob_root;
pub mod package;
pub mod walker;
pub mod message;
pub mod encoder;
pub mod file_offline;
pub mod stream;

use vstd::prelude::*;

verus! {

} // verus!
