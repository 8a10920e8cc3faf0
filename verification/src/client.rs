//! The client stub. Connecting, the socket timeouts and the buffered
//! stream pair are transport work and live outside the library; the
//! client value itself and the URL grammar it accepts are here.

use vstd::prelude::*;

verus! {

/// A stub HTTP client.
#[derive(Debug)]
pub struct Client {}

impl Client {
    pub fn new() -> (r: Self)
        ensures
            r == (Client {  }),
    {
        Client {  }
    }
}

impl Default for Client {
    fn default() -> (r: Client)
        ensures
            r == (Client {  }),
    {
        Client {  }
    }
}

} // verus!
