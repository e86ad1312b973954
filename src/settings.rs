//! How a listener configures each stream it accepts.
use vstd::prelude::*;

verus! {

/// The keepalive to set on an accepted stream: `tcp_keepalive` seconds, where
/// zero turns keepalive off.
pub fn keepalive_for(tcp_keepalive: u32) -> (r: Option<u32>)
    ensures
        tcp_keepalive == 0 ==> r.is_none(),
        tcp_keepalive > 0 ==> r == Some(tcp_keepalive),
{
    if tcp_keepalive > 0 {
        Some(tcp_keepalive)
    } else {
        None
    }
}

/// The read and write timeout, in seconds, to set on an accepted stream:
/// `timeout` seconds, where zero means no timeout.
pub fn timeout_for(timeout: u64) -> (r: Option<u64>)
    ensures
        timeout == 0 ==> r.is_none(),
        timeout > 0 ==> r == Some(timeout),
{
    if timeout > 0 {
        Some(timeout)
    } else {
        None
    }
}

} // verus!
