//! Socket addresses as IP bytes and a port.

use crate::g::{Error, Result};
use vstd::array::array_as_slice;
use vstd::prelude::*;
use vstd::slice::slice_to_vec;

verus! {

/// A socket address as plain values: the IP address's bytes (4 for IPv4,
/// 16 for IPv6, most significant first) and the port.
pub struct SockAddrView {
    pub ip: Seq<u8>,
    pub port: u16,
}

impl SockAddrView {
    /// The IP address has the length of an IPv4 or an IPv6 address.
    pub open spec fn wf(self) -> bool {
        self.ip.len() == 4 || self.ip.len() == 16
    }
}

/// A socket address: an IPv4 or IPv6 address and a port.
pub struct SockAddr {
    ip: Vec<u8>,
    port: u16,
}

impl View for SockAddr {
    type V = SockAddrView;

    closed spec fn view(&self) -> SockAddrView {
        SockAddrView { ip: self.ip@, port: self.port }
    }
}

impl SockAddr {
    /// An IPv4 socket address.
    pub fn v4(octets: [u8; 4], port: u16) -> (a: SockAddr)
        ensures
            a@ == (SockAddrView { ip: octets@, port }),
            a@.wf(),
    {
        let ip = slice_to_vec(array_as_slice(&octets));
        SockAddr { ip, port }
    }

    /// An IPv6 socket address.
    pub fn v6(octets: [u8; 16], port: u16) -> (a: SockAddr)
        ensures
            a@ == (SockAddrView { ip: octets@, port }),
            a@.wf(),
    {
        let ip = slice_to_vec(array_as_slice(&octets));
        SockAddr { ip, port }
    }

    /// The bytes of the IP address.
    pub fn ip(&self) -> (ip: &[u8])
        ensures
            ip@ == self@.ip,
    {
        self.ip.as_slice()
    }

    /// The port.
    pub fn port(&self) -> (port: u16)
        ensures
            port == self@.port,
    {
        self.port
    }

    /// Whether the address is an IPv4 address.
    pub fn is_ipv4(&self) -> (b: bool)
        ensures
            b == (self@.ip.len() == 4),
    {
        self.ip.len() == 4
    }
}

/// The socket address that IP bytes and a port make: `NwInvalidPort` for
/// port 0, else `NwInvalidIP` unless there are 4 or 16 bytes.
pub open spec fn sockaddr_of(ip: Seq<u8>, port: u16) -> Result<SockAddrView> {
    if port == 0 {
        Err(Error::NwInvalidPort)
    } else if ip.len() != 4 && ip.len() != 16 {
        Err(Error::NwInvalidIP)
    } else {
        Ok(SockAddrView { ip, port })
    }
}

/// The IP bytes and the port of a socket address: 4 bytes for IPv4, 16 for
/// IPv6.
pub fn sockaddr_to_bytes(sock_addr: &SockAddr) -> (r: Result<(Vec<u8>, u16)>)
    ensures
        r matches Ok((ip, port)) && ip@ == sock_addr@.ip && port == sock_addr@.port,
{
    Ok((slice_to_vec(sock_addr.ip.as_slice()), sock_addr.port))
}

/// The socket address of IP bytes (4 or 16 of them) and a port; see
/// `sockaddr_of` for the errors.
pub fn bytes_to_sockaddr(buf: &[u8], port: u16) -> (r: Result<SockAddr>)
    ensures
        match r {
            Ok(a) => sockaddr_of(buf@, port) == Ok::<SockAddrView, Error>(a@),
            Err(e) => sockaddr_of(buf@, port) == Err::<SockAddrView, Error>(e),
        },
{
    if port == 0 {
        return Err(Error::NwInvalidPort);
    }
    if buf.len() != 4 && buf.len() != 16 {
        return Err(Error::NwInvalidIP);
    }
    Ok(SockAddr { ip: slice_to_vec(buf), port })
}

/// The bytes and port of a socket address with a port other than 0 make
/// that socket address again.
pub proof fn lemma_sockaddr_roundtrip(a: SockAddrView)
    requires
        a.wf(),
        a.port != 0,
    ensures
        sockaddr_of(a.ip, a.port) == Ok::<SockAddrView, Error>(a),
{
}

} // verus!
