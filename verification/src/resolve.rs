//! The pure part of host name resolution: building the lookup string.
//!
//! Resolution itself is a blocking platform call that runs outside this
//! library.  The platform lookup facility expects a `"host:port"`
//! string, so a synthetic zero port is appended here; the zero port
//! only satisfies that shape and must not appear in any result, which
//! holds because a resolver keeps only the IP address of each socket
//! address the platform returns.

use vstd::prelude::*;

verus! {

/// The lookup string for `host`: the host with a synthetic `":0"`
/// suffix appended, exactly as the platform lookup facility expects.
pub fn lookup_string(host: &str) -> (r: String)
    ensures
        r@ == host@ + seq![':', '0'],
{
    proof {
        reveal_strlit(":0");
    }
    assert(":0"@ =~= seq![':', '0']);
    let s = String::from_str(host);
    s.concat(":0")
}

} // verus!
