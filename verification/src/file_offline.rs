//! Content-not-resident detection: a file whose data must be fetched from a
//! remote store before it can be read is skipped entirely, so a capture never
//! triggers expensive remote hydration.

use vstd::prelude::*;

verus! {

/// Windows file attribute: the file's data is not immediately available.
pub const FILE_ATTRIBUTE_OFFLINE: u32 = 0x1000;

/// Windows file attribute: opening the file fetches its data remotely.
pub const FILE_ATTRIBUTE_RECALL_ON_OPEN: u32 = 0x40000;

/// Windows file attribute: reading the file's data fetches it remotely.
pub const FILE_ATTRIBUTE_RECALL_ON_DATA_ACCESS: u32 = 0x400000;

/// Whether a Windows attribute word marks content as not locally resident.
pub open spec fn spec_offline_attributes(attributes: u32) -> bool {
    ||| attributes & FILE_ATTRIBUTE_OFFLINE == FILE_ATTRIBUTE_OFFLINE
    ||| attributes & FILE_ATTRIBUTE_RECALL_ON_DATA_ACCESS == FILE_ATTRIBUTE_RECALL_ON_DATA_ACCESS
    ||| attributes & FILE_ATTRIBUTE_RECALL_ON_OPEN == FILE_ATTRIBUTE_RECALL_ON_OPEN
}

/// Whether a Windows attribute word marks content as not locally resident.
/// On platforms without such placeholders, content is always resident and no
/// attribute word is consulted.
pub fn offline_attributes(attributes: u32) -> (r: bool)
    ensures
        r == spec_offline_attributes(attributes),
{
    attributes & FILE_ATTRIBUTE_OFFLINE == FILE_ATTRIBUTE_OFFLINE || attributes
        & FILE_ATTRIBUTE_RECALL_ON_DATA_ACCESS == FILE_ATTRIBUTE_RECALL_ON_DATA_ACCESS
        || attributes & FILE_ATTRIBUTE_RECALL_ON_OPEN == FILE_ATTRIBUTE_RECALL_ON_OPEN
}

/// A metadata handle that can say whether a file's content is not locally
/// resident.  Platform metadata types implement this outside the library:
/// from Windows attribute words through `offline_attributes`, and as a
/// constant `false` where the platform has no placeholder files.
pub trait FileOffline {
    fn is_offline(&self) -> bool;
}

} // verus!
