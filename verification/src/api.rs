//! The texts that requests to the instance are made of.

use vstd::prelude::*;
use vstd::string::StringExecFns;

verus! {

/// `front` and `back` in one string.
fn joined(front: &str, back: &str) -> (s: String)
    ensures
        s@ == front@ + back@,
{
    let mut s = front.to_string();
    s.append(back);
    s
}

/// Where the instance lists its global antennas.
pub fn antennas_url(base_url: &str) -> (url: String)
    ensures
        url@ == base_url@ + "/api/admin/antennas/global"@,
{
    joined(base_url, "/api/admin/antennas/global")
}

/// Where the instance imports posts.
pub fn import_url(base_url: &str) -> (url: String)
    ensures
        url@ == base_url@ + "/api/ap/show"@,
{
    joined(base_url, "/api/ap/show")
}

/// The value of the header that authorises a request with `token`.
pub fn bearer(token: &str) -> (header: String)
    ensures
        header@ == "Bearer "@ + token@,
{
    joined("Bearer ", token)
}

/// Why the antennas could not be fetched, `status` being the HTTP status in words.
pub fn fetch_error(status: &str) -> (words: String)
    ensures
        words@ == "Failed to fetch antennas: HTTP "@ + status@,
{
    joined("Failed to fetch antennas: HTTP ", status)
}

} // verus!
