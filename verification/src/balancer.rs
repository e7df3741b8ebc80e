//! Which upstream a request goes to.

use vstd::prelude::*;

verus! {

/// The upstream for the request with number `ticket`: the upstreams take
/// turns in the order of their list. The number is a running count of the
/// requests, or a hash of what requests to one upstream have in common.
pub fn next_server(addrs: &Vec<String>, ticket: usize) -> (addr: &String)
    requires
        addrs@.len() > 0,
    ensures
        *addr == addrs@[ticket as int % addrs@.len() as int],
{
    &addrs[ticket % addrs.len()]
}

} // verus!
