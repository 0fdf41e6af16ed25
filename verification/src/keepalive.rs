//! The client's keep-alive: the server's UDP address is learned from the
//! first datagram that arrives, and from then on `PING` goes to it every
//! [`PING_INTERVAL_MILLIS`].
use vstd::prelude::*;

use crate::address::SocketAddress;
use crate::registry::is_ping_text;

verus! {

/// How often the client pings the server: every 2000 milliseconds.
pub const PING_INTERVAL_MILLIS: u64 = 2000;

/// What the client knows of the server's UDP address: nothing until the
/// first datagram arrives, then that datagram's sender, for good.
pub struct ServerDiscovery {
    server: Option<SocketAddress>,
}

impl ServerDiscovery {
    /// The server's UDP address, once known.
    pub closed spec fn server(&self) -> Option<SocketAddress> {
        self.server
    }

    /// Nothing is known of the server yet.
    pub fn new() -> (r: Self)
        ensures
            r.server() is None,
    {
        ServerDiscovery { server: None }
    }

    /// A datagram arrived from `src`: the first sender becomes the server; a
    /// known one is kept. Gives whether `src` has just become the server.
    pub fn on_datagram(&mut self, src: SocketAddress) -> (discovered: bool)
        ensures
            discovered == old(self).server() is None,
            final(self).server() == (if old(self).server() is None {
                Some(src)
            } else {
                old(self).server()
            }),
    {
        if self.server.is_none() {
            self.server = Some(src);
            true
        } else {
            false
        }
    }

    /// Where the next keep-alive goes: the server once known, nowhere before.
    pub fn ping_target(&self) -> (r: Option<SocketAddress>)
        ensures
            r == self.server(),
    {
        self.server
    }
}

/// The keep-alive text, `PING`, which the server's
/// [`crate::registry::is_ping`] accepts.
pub fn ping_message() -> (r: &'static str)
    ensures
        r@ == seq!['P', 'I', 'N', 'G'],
        is_ping_text(r@),
{
    let m = "PING";
    proof {
        reveal_strlit("PING");
        let s = m@;
        assert(crate::text::skip_space(s, 0) == 0);
        assert(crate::text::back_space(s, 0, 4) == 4);
        assert(crate::text::trim(s) =~= s);
        assert(s =~= seq!['P', 'I', 'N', 'G']);
    }
    m
}

} // verus!
