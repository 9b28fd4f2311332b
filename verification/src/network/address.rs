//! Addresses of peers.

use crate::primitives::bytes::bytes_equal;
use vstd::prelude::*;

verus! {

/// An IP address.
#[derive(Debug, Clone, Copy)]
pub enum IpAddr {
    V4([u8; 4]),
    V6([u8; 16]),
}

/// An IP address with a port.
#[derive(Debug, Clone, Copy)]
pub struct SocketAddr {
    pub ip: IpAddr,
    pub port: u16,
}

/// What an IP address stands for.
#[verifier::ext_equal]
pub enum IpAddrView {
    V4(Seq<u8>),
    V6(Seq<u8>),
}

/// What an address with a port stands for.
#[verifier::ext_equal]
pub struct SocketAddrView {
    pub ip: IpAddrView,
    pub port: u16,
}

impl View for IpAddr {
    type V = IpAddrView;

    open spec fn view(&self) -> IpAddrView {
        match self {
            IpAddr::V4(o) => IpAddrView::V4(o@),
            IpAddr::V6(o) => IpAddrView::V6(o@),
        }
    }
}

impl View for SocketAddr {
    type V = SocketAddrView;

    open spec fn view(&self) -> SocketAddrView {
        SocketAddrView { ip: self.ip@, port: self.port }
    }
}

impl PartialEq for IpAddr {
    fn eq(&self, other: &IpAddr) -> (r: bool) {
        match (self, other) {
            (IpAddr::V4(a), IpAddr::V4(b)) => bytes_equal(a, b),
            (IpAddr::V6(a), IpAddr::V6(b)) => bytes_equal(a, b),
            _ => false,
        }
    }
}

impl vstd::std_specs::cmp::PartialEqSpecImpl for IpAddr {
    open spec fn obeys_eq_spec() -> bool {
        true
    }

    open spec fn eq_spec(&self, other: &IpAddr) -> bool {
        self@ == other@
    }
}

impl Eq for IpAddr {

}

impl PartialEq for SocketAddr {
    fn eq(&self, other: &SocketAddr) -> (r: bool) {
        self.ip == other.ip && self.port == other.port
    }
}

impl vstd::std_specs::cmp::PartialEqSpecImpl for SocketAddr {
    open spec fn obeys_eq_spec() -> bool {
        true
    }

    open spec fn eq_spec(&self, other: &SocketAddr) -> bool {
        self@ == other@
    }
}

impl Eq for SocketAddr {

}

/// The sixteen bytes of an IP address. An IPv4 address is mapped to `::ffff:a.b.c.d`.
pub open spec fn mapped_octets(ip: IpAddrView) -> Seq<u8> {
    match ip {
        IpAddrView::V4(o) => seq![0u8, 0u8, 0u8, 0u8, 0u8, 0u8, 0u8, 0u8, 0u8, 0u8, 0xffu8, 0xffu8]
            + o,
        IpAddrView::V6(o) => o,
    }
}

/// Whether sixteen bytes are a mapped IPv4 address.
pub open spec fn is_mapped(octets: Seq<u8>) -> bool {
    octets[0] == 0 && octets[1] == 0 && octets[2] == 0 && octets[3] == 0 && octets[4] == 0
        && octets[5] == 0 && octets[6] == 0 && octets[7] == 0 && octets[8] == 0 && octets[9] == 0
        && octets[10] == 0xff && octets[11] == 0xff
}

/// The bytes of an IP address: four or sixteen.
pub open spec fn ip_key(ip: IpAddrView) -> Seq<u8> {
    match ip {
        IpAddrView::V4(o) => o,
        IpAddrView::V6(o) => o,
    }
}

/// Different addresses have different bytes.
pub proof fn lemma_ip_key_differs(a: IpAddr, b: IpAddr)
    requires
        ip_key(a@) == ip_key(b@),
    ensures
        a@ == b@,
{
    assert(ip_key(a@).len() == match a {
        IpAddr::V4(_) => 4int,
        IpAddr::V6(_) => 16,
    });
    assert(ip_key(b@).len() == match b {
        IpAddr::V4(_) => 4int,
        IpAddr::V6(_) => 16,
    });
}

impl IpAddr {
    /// The bytes of the address: four or sixteen.
    pub fn key(&self) -> (r: Vec<u8>)
        ensures
            r@ == ip_key(self@),
    {
        match self {
            IpAddr::V4(o) => vstd::slice::slice_to_vec(o),
            IpAddr::V6(o) => vstd::slice::slice_to_vec(o),
        }
    }

    /// The sixteen bytes of the address.
    pub fn octets16(&self) -> (r: [u8; 16])
        ensures
            r@ == mapped_octets(self@),
    {
        match self {
            IpAddr::V4(o) => {
                let r: [u8; 16] = [
                    0, 0, 0, 0, 0, 0, 0, 0, 0, 0, 0xff, 0xff, o[0], o[1], o[2], o[3],
                ];
                assert(r@ =~= mapped_octets(self@));
                r
            },
            IpAddr::V6(o) => *o,
        }
    }
}

} // verus!
