//! Connection settings for the VM directory the targets are computed from.

use vstd::prelude::*;

verus! {

/// Where the VM directory lives and how to authenticate against it.
///
/// The library itself never contacts the directory; the surrounding program
/// reads these settings from its environment, fetches the VM records, and
/// hands the records to [`crate::sd`]. The fields are kept here so that the
/// whole description of a deployment is one value.
#[derive(Debug, Clone)]
pub struct Config {
    /// Base URL of the VM directory's REST interface.
    pub xoa_url: String,
    /// Authentication token presented to the directory.
    pub xoa_token: String,
}

impl Config {
    /// Packs a directory URL and token into a `Config`.
    pub fn new(xoa_url: String, xoa_token: String) -> (r: Config)
        ensures
            r.xoa_url@ == xoa_url@,
            r.xoa_token@ == xoa_token@,
    {
        Config { xoa_url, xoa_token }
    }
}

} // verus!
