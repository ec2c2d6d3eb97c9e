//! The mark that a repository belongs to an estate.
use vstd::prelude::*;

use crate::text;

verus! {

/// The name of the marker file in the directory of a repository's index.
pub const ESTATE_MARKER: &'static str = "estate.toml";

/// Which estate a repository belongs to, and under which name.
#[derive(Debug, PartialEq, Eq)]
pub struct EstateMarker {
    /// The resolved path of the manifest.
    pub manifest: String,
    /// The name of the estate.
    pub estate: String,
    /// The name of the repository in the manifest.
    pub repo: String,
}

/// The name of the file that the marker of a process is written to before it replaces the one on
/// disk.
pub fn marker_temp_name(process: u32) -> (r: String)
    ensures
        r@ == ESTATE_MARKER@ + "."@ + text::decimal(process as nat) + ".tmp"@,
{
    let pid = text::decimal_of(process as u128);
    let mut s = ESTATE_MARKER.to_owned();
    s.append(".");
    s.append(pid.as_str());
    s.append(".tmp");
    s
}

} // verus!
