//! Peer identity: a plain socket address and a numbered connection record.

use vstd::prelude::*;

verus! {

/// An IPv4 endpoint as plain values: the sole identity of a peer. A peer
/// whose source port changes is a new peer.
#[derive(Clone, Copy, PartialEq, Eq, Structural, Debug, Hash)]
pub struct Addr {
    pub ip: u32,
    pub port: u16,
}

impl Addr {
    pub fn new(ip: u32, port: u16) -> (r: Addr)
        ensures
            r.ip == ip,
            r.port == port,
    {
        Addr { ip, port }
    }
}

/// A numbered connection record.
#[derive(Clone, Copy, PartialEq, Eq, Structural, Debug)]
pub struct Connection {
    pub addr: Addr,
    pub id: u64,
}

impl Connection {
    pub fn new(addr: Addr, id: u64) -> (r: Connection)
        ensures
            r.addr == addr,
            r.id == id,
    {
        Connection { addr, id }
    }
}

} // verus!
