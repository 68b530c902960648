//! The C-style socket address records of the option reader.

use vstd::prelude::*;

verus! {

/// An IPv4 address in network order.
#[derive(Clone, Copy, Debug, PartialEq, Eq, Structural)]
pub struct InAddr {
    pub s_addr: u32,
}

impl InAddr {
    /// The record of the address `addr`.
    pub fn new(addr: u32) -> (a: InAddr)
        ensures
            a.s_addr == addr,
    {
        InAddr { s_addr: addr }
    }
}

/// An IPv6 address: its sixteen bytes.
#[derive(Clone, Copy, Debug)]
pub struct In6Addr {
    pub s6_addr: [u8; 16],
}

impl In6Addr {
    /// The record of the address with bytes `addr`.
    pub fn new(addr: [u8; 16]) -> (a: In6Addr)
        ensures
            a.s6_addr == addr,
    {
        In6Addr { s6_addr: addr }
    }
}

/// A generic socket address: the family and fourteen bytes of data.
#[derive(Clone, Copy, Debug)]
pub struct SockAddr {
    pub sa_family: u16,
    pub sa_data: [u8; 14],
}

/// An IPv4 socket address.
#[derive(Clone, Copy, Debug)]
pub struct SockAddrIn {
    pub sin_family: u16,
    pub sin_port: u16,
    pub sin_addr: InAddr,
    pub sin_zero: [u8; 8],
}

/// An IPv6 socket address.
#[derive(Clone, Copy, Debug)]
pub struct SockAddrIn6 {
    pub sin6_family: u16,
    pub sin6_port: u16,
    pub sin6_flowinfo: u32,
    pub sin6_addr: In6Addr,
    pub sin6_scope_id: u32,
}

} // verus!
